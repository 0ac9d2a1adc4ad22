use crowd_flow::geom::{Vec2Fix, Rect, IVec2};
use crowd_flow::components::{Shape, SimulationConstants};
use crowd_flow::models::TargetProximity;
use crowd_flow::simulation::SimulationState;
use crowd_flow::overlay::{
    handle_grid_state_inputs, handle_overlay_inputs, input_system, ShowGridState,
    PathFindingOverlayState,
};

fn constants() -> SimulationConstants {
    SimulationConstants {
        repulsion_strength: 2_000_000,
        decay_length: 80,
        contact_stiffness: 120_000_000,
        tangential_stiffness: 240_000_000,
        agent_radius: 10_000,
        agent_mass: 80_000,
        pixels_per_meter: 50_000,
        desired_speed: 3000,
    }
}

fn world() -> Rect {
    Rect {
        min: Vec2Fix { x: -350_000, y: -350_000 },
        max: Vec2Fix { x: 350_000, y: 350_000 },
    }
}

fn new_simulation() -> SimulationState {
    SimulationState::initialize(world(), 5000, constants())
}

#[test]
fn initialize_builds_the_grids() {
    let s = new_simulation();
    assert_eq!(s.blocked_map.columns, 140);
    assert_eq!(s.blocked_map.rows, 140);
    assert_eq!(s.blocked_map.cell_dimentions.x, 5000);
    assert_eq!(s.agents.len(), 0);
}

#[test]
fn add_agent_rejects_out_of_bounds_positions() {
    let mut s = new_simulation();
    assert_eq!(s.add_agent(Vec2Fix { x: 0, y: 0 }), Some(0));
    assert_eq!(s.add_agent(Vec2Fix { x: 100, y: 100 }), Some(1));
    assert_eq!(s.add_agent(Vec2Fix { x: 360_000, y: 0 }), None);
    assert_eq!(s.agents.len(), 2);
}

#[test]
fn remove_agent_drops_exactly_that_id() {
    let mut s = new_simulation();
    let a = s.add_agent(Vec2Fix { x: 0, y: 0 }).unwrap();
    let b = s.add_agent(Vec2Fix { x: 1000, y: 0 }).unwrap();
    s.remove_agent(a);
    assert_eq!(s.agents.len(), 1);
    assert_eq!(s.agents[0].id, b);
}

#[test]
fn add_obstacle_rejects_a_malformed_polygon() {
    let mut s = new_simulation();
    assert!(!s.add_obstacle(
        Vec2Fix { x: 0, y: 0 },
        Shape::Polygon(vec![Vec2Fix { x: 0, y: 0 }, Vec2Fix { x: 1000, y: 0 }]),
    ));
    assert!(s.add_obstacle(Vec2Fix { x: 0, y: 0 }, Shape::Circle(50_000)));
    assert_eq!(s.obstacles.len(), 1);
}

#[test]
fn agent_on_the_target_boundary_leaves_after_one_step() {
    // an agent exactly on a target's boundary (signed distance zero)
    let mut s = new_simulation();
    assert!(s.add_target(Vec2Fix { x: 0, y: 0 }, Shape::Circle(20_000)));
    s.add_agent(Vec2Fix { x: 20_000, y: 0 }).unwrap();
    assert_eq!(s.agents.len(), 1);
    s.advance();
    assert_eq!(s.agents.len(), 0);
}

#[test]
fn distant_agent_survives_a_step_and_moves_toward_the_target() {
    let mut s = new_simulation();
    assert!(s.add_target(Vec2Fix { x: 300_000, y: 0 }, Shape::Circle(20_000)));
    s.add_agent(Vec2Fix { x: -300_000, y: 0 }).unwrap();
    let before = s.agents[0].position;
    s.advance();
    assert_eq!(s.agents.len(), 1);
    let after = s.agents[0].position;
    assert!(after.x > before.x, "agent moved from {:?} to {:?}", before, after);
}

#[test]
fn second_step_reuses_the_proximity_map() {
    // with unchanged blocked and target maps the recomputation is skipped
    // and the proximity map comes out identical
    let mut s = new_simulation();
    assert!(s.add_target(Vec2Fix { x: 100_000, y: 100_000 }, Shape::Circle(20_000)));
    assert!(s.add_obstacle(Vec2Fix { x: 0, y: 0 }, Shape::Circle(40_000)));
    s.advance();
    let total = s.proximity_map.columns * s.proximity_map.rows;
    let first: Vec<Option<TargetProximity>> =
        (0..total).map(|i| s.proximity_map.get_value_by_index(i)).collect();
    s.advance();
    let second: Vec<Option<TargetProximity>> =
        (0..total).map(|i| s.proximity_map.get_value_by_index(i)).collect();
    assert_eq!(first, second);
}

#[test]
fn moving_an_obstacle_marks_it_for_rasterization() {
    let mut s = new_simulation();
    assert!(s.add_obstacle(Vec2Fix { x: 0, y: 0 }, Shape::Circle(40_000)));
    assert!(s.add_target(Vec2Fix { x: 200_000, y: 0 }, Shape::Circle(20_000)));
    s.advance();
    let blocked_before = s
        .blocked_map
        .get_value_at(Vec2Fix { x: 0, y: 0 })
        .unwrap();
    assert!(s.move_obstacle(0, Vec2Fix { x: -200_000, y: -200_000 }));
    s.advance();
    let blocked_after = s
        .blocked_map
        .get_value_at(Vec2Fix { x: 0, y: 0 })
        .unwrap();
    assert_ne!(blocked_before, blocked_after);
    assert_eq!(
        s.blocked_map
            .get_value_at(Vec2Fix { x: -200_000, y: -200_000 })
            .unwrap(),
        blocked_before
    );
}

#[test]
fn a_step_consumes_every_dirty_flag() {
    let mut s = new_simulation();
    assert!(s.add_obstacle(Vec2Fix { x: 0, y: 0 }, Shape::Circle(40_000)));
    assert!(s.add_target(Vec2Fix { x: 200_000, y: 0 }, Shape::Circle(20_000)));
    assert!(s.obstacles[0].changed);
    assert!(s.targets[0].changed);
    s.advance();
    assert!(!s.obstacles[0].changed);
    assert!(!s.targets[0].changed);
    assert!(!s.blocked_map_changed);
    assert!(!s.target_map_changed);
    assert!(!s.proximity_changed);
}

#[test]
fn velocity_never_exceeds_the_desired_speed() {
    let mut s = new_simulation();
    assert!(s.add_target(Vec2Fix { x: 300_000, y: 0 }, Shape::Circle(20_000)));
    // two overlapping agents repel each other hard
    s.add_agent(Vec2Fix { x: -300_000, y: 0 }).unwrap();
    s.add_agent(Vec2Fix { x: -295_000, y: 0 }).unwrap();
    for _ in 0..3 {
        s.advance();
    }
    let speed = s.constants.desired_speed as i128;
    for a in &s.agents {
        let v = a.speed.0;
        let m2 = (v.x as i128) * (v.x as i128) + (v.y as i128) * (v.y as i128);
        assert!(m2 <= speed * speed + 2 * speed + 1);
    }
}

#[test]
fn agents_stay_inside_the_area() {
    let mut s = new_simulation();
    assert!(s.add_target(Vec2Fix { x: -340_000, y: -340_000 }, Shape::Circle(5_000)));
    s.add_agent(Vec2Fix { x: 340_000, y: 340_000 }).unwrap();
    for _ in 0..5 {
        s.advance();
    }
    for a in &s.agents {
        assert!(world().min.x <= a.position.x && a.position.x <= world().max.x);
        assert!(world().min.y <= a.position.y && a.position.y <= world().max.y);
    }
}

#[test]
fn proximity_map_marks_blocked_cells_unreachable() {
    let mut s = new_simulation();
    assert!(s.add_obstacle(Vec2Fix { x: 0, y: 0 }, Shape::Circle(40_000)));
    assert!(s.add_target(Vec2Fix { x: 200_000, y: 0 }, Shape::Circle(20_000)));
    s.advance();
    let c = s.blocked_map.get_cell(Vec2Fix { x: 0, y: 0 }).unwrap();
    assert_eq!(
        s.proximity_map.get_value_at_cell(IVec2 { x: c.x, y: c.y }),
        Some(TargetProximity::Unreachable)
    );
}

#[test]
fn agent_on_the_far_edge_skips_the_field_sample() {
    // the area's far corner falls past the last cell, so the field sample
    // fails there and the agent is skipped for the step
    let mut s = new_simulation();
    assert!(s.add_target(Vec2Fix { x: 0, y: 0 }, Shape::Circle(5_000)));
    s.add_agent(world().max).unwrap();
    s.advance();
    assert_eq!(s.agents.len(), 1);
    assert_eq!(s.agents[0].motivation_force.0, Vec2Fix { x: 0, y: 0 });
    assert_eq!(s.agents[0].position, world().max);
}

#[test]
fn manual_steering_has_uniform_speed() {
    // a single held key moves six whole units along its axis
    assert_eq!(input_system(false, false, false, true), Vec2Fix { x: 6000, y: 0 });
    assert_eq!(input_system(false, true, false, false), Vec2Fix { x: 0, y: -6000 });
    // a diagonal is normalized, not summed
    let d = input_system(true, false, false, true);
    assert_eq!(d, Vec2Fix { x: 4243, y: 4243 });
    // opposite keys cancel out
    assert_eq!(input_system(true, true, false, false), Vec2Fix { x: 0, y: 0 });
    assert_eq!(input_system(false, false, false, false), Vec2Fix { x: 0, y: 0 });
}

#[test]
fn grid_toggle_flips_only_on_a_press() {
    let s = handle_grid_state_inputs(ShowGridState::HideGrid, true);
    assert_eq!(s, ShowGridState::ShowGrid);
    let s = handle_grid_state_inputs(s, false);
    assert_eq!(s, ShowGridState::ShowGrid);
    let s = handle_grid_state_inputs(s, true);
    assert_eq!(s, ShowGridState::HideGrid);
}

#[test]
fn overlay_keys_select_and_clear_their_layer() {
    let s = handle_overlay_inputs(PathFindingOverlayState::ShowNone, true, false, false, false);
    assert_eq!(s, PathFindingOverlayState::ShowObstacles);
    let s = handle_overlay_inputs(s, true, false, false, false);
    assert_eq!(s, PathFindingOverlayState::ShowNone);
    let s = handle_overlay_inputs(s, false, true, false, true);
    assert_eq!(s, PathFindingOverlayState::ShowVectorField);
    let s = handle_overlay_inputs(s, false, false, false, false);
    assert_eq!(s, PathFindingOverlayState::ShowVectorField);
}
