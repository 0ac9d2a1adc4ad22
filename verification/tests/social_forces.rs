use crowd_flow::geom::Vec2Fix;
use crowd_flow::components::{Shape, SimulationConstants};
use crowd_flow::systems::{body_force, exp_neg_fix};
use crowd_flow::utils::{
    point_in_shape, signed_distance_to_sahpe, signed_distance_and_normal_to_sahpe,
};

fn constants() -> SimulationConstants {
    SimulationConstants {
        repulsion_strength: 2_000_000,
        decay_length: 80,
        contact_stiffness: 120_000_000,
        tangential_stiffness: 240_000_000,
        agent_radius: 10_000,
        agent_mass: 80_000,
        pixels_per_meter: 50_000,
        desired_speed: 3000,
    }
}

#[test]
fn exponential_fixed_points() {
    assert_eq!(exp_neg_fix(0), 1000);
    // one whole decay step is e^-1 in thousandths
    assert_eq!(exp_neg_fix(1000), 368);
    // one whole growth step is e in thousandths
    assert_eq!(exp_neg_fix(-1000), 2718);
    // far decay underflows to zero
    assert_eq!(exp_neg_fix(200_000), 0);
    // deep penetration saturates at e^10
    assert_eq!(exp_neg_fix(-50_000), exp_neg_fix(-10_000));
    // monotone over a sample of arguments
    let mut last = i64::MAX;
    for arg in [-10_000i64, -5000, -1000, 0, 500, 1000, 5000, 64_000] {
        let e = exp_neg_fix(arg);
        assert!(e <= last);
        last = e;
    }
}

#[test]
fn pair_force_is_antisymmetric() {
    let c = constants();
    let p1 = Vec2Fix { x: 12_000, y: -3000 };
    let p2 = Vec2Fix { x: -5000, y: 4000 };
    let f12 = body_force(p1, p2, 2 * c.agent_radius, &c);
    let f21 = body_force(p2, p1, 2 * c.agent_radius, &c);
    assert_eq!(f21.x, -f12.x);
    assert_eq!(f21.y, -f12.y);
}

#[test]
fn contact_term_vanishes_at_the_touching_distance() {
    // two agents exactly two radii apart: no overlap, so the force is the
    // bare exponential term along the normal
    let c = constants();
    let p1 = Vec2Fix { x: 20_000, y: 0 };
    let p2 = Vec2Fix { x: 0, y: 0 };
    let f = body_force(p1, p2, 2 * c.agent_radius, &c);
    // e^0 leaves exactly the repulsion magnitude, and no tangential part
    assert_eq!(f.x, c.repulsion_strength);
    assert_eq!(f.y, 0);
}

#[test]
fn repulsion_grows_strictly_as_agents_overlap() {
    let c = constants();
    let p2 = Vec2Fix { x: 0, y: 0 };
    let mut last = 0i64;
    for sep in [20_000i64, 18_000, 16_000, 14_000, 12_000] {
        let f = body_force(Vec2Fix { x: sep, y: 0 }, p2, 2 * c.agent_radius, &c);
        // the normal push grows strictly; once the bodies overlap a sliding
        // term along the tangent appears as well
        assert!(f.x > last, "separation {} gave {} after {}", sep, f.x, last);
        last = f.x;
    }
}

#[test]
fn coincident_bodies_repel_nowhere() {
    let c = constants();
    let p = Vec2Fix { x: 777, y: -777 };
    let f = body_force(p, p, 2 * c.agent_radius, &c);
    assert_eq!(f, Vec2Fix { x: 0, y: 0 });
}

#[test]
fn point_in_circle_uses_the_boundary_inclusively() {
    let shape = Shape::Circle(5000);
    let center = Vec2Fix { x: 1000, y: 1000 };
    assert!(point_in_shape(&shape, center, Vec2Fix { x: 1000, y: 6000 }));
    assert!(point_in_shape(&shape, center, Vec2Fix { x: 1000, y: 1000 }));
    assert!(!point_in_shape(&shape, center, Vec2Fix { x: 1000, y: 6001 }));
}

#[test]
fn point_in_polygon_by_the_crossing_rule() {
    // a unit square in model space around the origin
    let square = Shape::Polygon(vec![
        Vec2Fix { x: -1000, y: -1000 },
        Vec2Fix { x: 1000, y: -1000 },
        Vec2Fix { x: 1000, y: 1000 },
        Vec2Fix { x: -1000, y: 1000 },
    ]);
    let at = Vec2Fix { x: 5000, y: 5000 };
    assert!(point_in_shape(&square, at, Vec2Fix { x: 5000, y: 5000 }));
    assert!(point_in_shape(&square, at, Vec2Fix { x: 5900, y: 4100 }));
    assert!(!point_in_shape(&square, at, Vec2Fix { x: 6100, y: 5000 }));
    assert!(!point_in_shape(&square, at, Vec2Fix { x: 5000, y: 3900 }));
}

#[test]
fn circle_signed_distance_is_center_distance_minus_radius() {
    let shape = Shape::Circle(5000);
    let center = Vec2Fix { x: 0, y: 0 };
    assert_eq!(
        signed_distance_to_sahpe(&shape, center, Vec2Fix { x: 8000, y: 0 }),
        3000
    );
    assert_eq!(
        signed_distance_to_sahpe(&shape, center, Vec2Fix { x: 5000, y: 0 }),
        0
    );
    assert_eq!(
        signed_distance_to_sahpe(&shape, center, Vec2Fix { x: 3000, y: 0 }),
        -2000
    );
    // 3-4-5 triangle
    assert_eq!(
        signed_distance_to_sahpe(&shape, center, Vec2Fix { x: 6000, y: 8000 }),
        5000
    );
}

#[test]
fn circle_distance_rounds_outward_outside() {
    // a point strictly outside by under one fixed-point step still gets a
    // positive distance (the outside norm is ceiled), and a point strictly
    // inside by under one step a negative one
    let shape = Shape::Circle(5000);
    let center = Vec2Fix { x: 0, y: 0 };
    assert_eq!(
        signed_distance_to_sahpe(&shape, center, Vec2Fix { x: 3000, y: 4001 }),
        1
    );
    assert_eq!(
        signed_distance_to_sahpe(&shape, center, Vec2Fix { x: 3000, y: 3999 }),
        -1
    );
}

#[test]
fn polygon_distance_is_the_nearest_edge_distance() {
    let square = Shape::Polygon(vec![
        Vec2Fix { x: -1000, y: -1000 },
        Vec2Fix { x: 1000, y: -1000 },
        Vec2Fix { x: 1000, y: 1000 },
        Vec2Fix { x: -1000, y: 1000 },
    ]);
    let at = Vec2Fix { x: 0, y: 0 };
    // straight out from the right edge
    assert_eq!(
        signed_distance_to_sahpe(&square, at, Vec2Fix { x: 4000, y: 0 }),
        3000
    );
    // out from the corner, a 3-4-5 triangle away from (1000, 1000)
    assert_eq!(
        signed_distance_to_sahpe(&square, at, Vec2Fix { x: 4000, y: 5000 }),
        5000
    );
}

#[test]
fn circle_normal_points_from_center_to_query() {
    let shape = Shape::Circle(2000);
    let center = Vec2Fix { x: 1000, y: 1000 };
    let (normal, d) =
        signed_distance_and_normal_to_sahpe(&shape, center, Vec2Fix { x: 4000, y: 5000 });
    assert_eq!(normal, Vec2Fix { x: 3000, y: 4000 });
    assert_eq!(d, 3000);
}

#[test]
fn polygon_normal_leaves_the_nearest_edge() {
    let square = Shape::Polygon(vec![
        Vec2Fix { x: -1000, y: -1000 },
        Vec2Fix { x: 1000, y: -1000 },
        Vec2Fix { x: 1000, y: 1000 },
        Vec2Fix { x: -1000, y: 1000 },
    ]);
    let at = Vec2Fix { x: 0, y: 0 };
    let (normal, d) =
        signed_distance_and_normal_to_sahpe(&square, at, Vec2Fix { x: 4000, y: 0 });
    assert_eq!(d, 3000);
    // the perpendicular of the right edge points along positive x
    assert!(normal.x > 0);
    assert_eq!(normal.y, 0);
}
