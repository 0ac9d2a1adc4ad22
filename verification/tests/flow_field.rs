use crowd_flow::geom::{Vec2Fix, Rect, IVec2};
use crowd_flow::grid::GridMap;
use crowd_flow::components::Shape;
use crowd_flow::models::{BlockedStatus, TargetStatus, TargetProximity};
use crowd_flow::pathfinding::{
    create_colision_map, compute_proximity_map, create_vector_map, AXIS_COST, DIAG_COST,
};

fn area(min_x: i64, min_y: i64, max_x: i64, max_y: i64) -> Rect {
    Rect {
        min: Vec2Fix { x: min_x, y: min_y },
        max: Vec2Fix { x: max_x, y: max_y },
    }
}

fn ten_by_ten() -> (GridMap<BlockedStatus>, GridMap<TargetStatus>, GridMap<TargetProximity>) {
    let a = area(0, 0, 10_000, 10_000);
    (
        GridMap::new(10, 10, a, BlockedStatus::Empty),
        GridMap::new(10, 10, a, TargetStatus::NotTarget),
        GridMap::new(10, 10, a, TargetProximity::NotComputed),
    )
}

fn proximity_at(m: &GridMap<TargetProximity>, x: i64, y: i64) -> TargetProximity {
    m.get_value_at_cell(IVec2 { x, y }).unwrap()
}

#[test]
fn rasterizer_flags_cells_covered_by_a_circle() {
    let (mut blocked, _, _) = ten_by_ten();
    // a circle of radius 1100 around the center of cell (5, 5)
    let changed = vec![(Vec2Fix { x: 5500, y: 5500 }, Shape::Circle(1100))];
    create_colision_map(&mut blocked, &changed);
    assert_eq!(blocked_at_cell(&blocked, 5, 5), BlockedStatus::Blocked);
    assert_eq!(blocked_at_cell(&blocked, 4, 5), BlockedStatus::Blocked);
    assert_eq!(blocked_at_cell(&blocked, 6, 5), BlockedStatus::Blocked);
    assert_eq!(blocked_at_cell(&blocked, 5, 4), BlockedStatus::Blocked);
    assert_eq!(blocked_at_cell(&blocked, 5, 6), BlockedStatus::Blocked);
    // the diagonal neighbor's center is at distance sqrt(2) * 1000 > 1100
    assert_eq!(blocked_at_cell(&blocked, 4, 4), BlockedStatus::Empty);
    assert_eq!(blocked_at_cell(&blocked, 0, 0), BlockedStatus::Empty);
}

fn blocked_at_cell(m: &GridMap<BlockedStatus>, x: i64, y: i64) -> BlockedStatus {
    m.get_value_at_cell(IVec2 { x, y }).unwrap()
}

#[test]
fn rasterizer_skips_a_degenerate_shape() {
    // a zero-radius circle projects to zero cells and is skipped
    let (mut blocked, _, _) = ten_by_ten();
    let changed = vec![(Vec2Fix { x: 5500, y: 5500 }, Shape::Circle(0))];
    create_colision_map(&mut blocked, &changed);
    for i in 0..100 {
        assert_eq!(blocked.get_value_by_index(i), Some(BlockedStatus::Empty));
    }
}

#[test]
fn rasterizer_with_no_change_leaves_the_map() {
    let (mut blocked, _, _) = ten_by_ten();
    let changed = vec![(Vec2Fix { x: 500, y: 500 }, Shape::Circle(300))];
    create_colision_map(&mut blocked, &changed);
    assert_eq!(blocked_at_cell(&blocked, 0, 0), BlockedStatus::Blocked);
    let unchanged: Vec<(Vec2Fix, Shape)> = Vec::new();
    create_colision_map(&mut blocked, &unchanged);
    assert_eq!(blocked_at_cell(&blocked, 0, 0), BlockedStatus::Blocked);
}

#[test]
fn single_center_target_reaches_every_cell_monotonically() {
    // a 10x10 grid with one target cell at the center and no obstacles
    let (blocked, mut targets, mut prox) = ten_by_ten();
    let changed = vec![(Vec2Fix { x: 5500, y: 5500 }, Shape::Circle(400))];
    create_colision_map(&mut targets, &changed);
    compute_proximity_map(&mut prox, &blocked, &targets);
    for x in 0..10i64 {
        for y in 0..10i64 {
            let dx = (x - 5).abs() as u64;
            let dy = (y - 5).abs() as u64;
            let diag = dx.min(dy);
            let axis = dx.max(dy) - diag;
            let expected = diag * DIAG_COST + axis * AXIS_COST;
            match proximity_at(&prox, x, y) {
                TargetProximity::Computed(d) => assert_eq!(d, expected),
                other => panic!("cell ({}, {}) not computed: {:?}", x, y, other),
            }
        }
    }
}

#[test]
fn adjacent_reachable_cells_differ_by_at_most_a_diagonal_step() {
    let (mut blocked, mut targets, mut prox) = ten_by_ten();
    let target_change = vec![(Vec2Fix { x: 1500, y: 1500 }, Shape::Circle(400))];
    create_colision_map(&mut targets, &target_change);
    let obstacle_change = vec![(Vec2Fix { x: 5500, y: 4500 }, Shape::Circle(1600))];
    create_colision_map(&mut blocked, &obstacle_change);
    compute_proximity_map(&mut prox, &blocked, &targets);
    for x in 0..10i64 {
        for y in 0..10i64 {
            let here = match proximity_at(&prox, x, y) {
                TargetProximity::Computed(d) => d,
                _ => continue,
            };
            for dx in -1..=1i64 {
                for dy in -1..=1i64 {
                    if dx == 0 && dy == 0 {
                        continue;
                    }
                    if let Some(TargetProximity::Computed(there)) =
                        prox.get_value_at_cell(IVec2 { x: x + dx, y: y + dy })
                    {
                        let diff = if here > there { here - there } else { there - here };
                        assert!(
                            diff <= DIAG_COST,
                            "cells ({}, {}) and ({}, {}) differ by {}",
                            x,
                            y,
                            x + dx,
                            y + dy,
                            diff
                        );
                    }
                }
            }
        }
    }
}

#[test]
fn propagation_is_idempotent() {
    let (mut blocked, mut targets, mut prox) = ten_by_ten();
    let target_change = vec![(Vec2Fix { x: 2500, y: 7500 }, Shape::Circle(900))];
    create_colision_map(&mut targets, &target_change);
    let obstacle_change = vec![(Vec2Fix { x: 5500, y: 5500 }, Shape::Circle(1400))];
    create_colision_map(&mut blocked, &obstacle_change);
    compute_proximity_map(&mut prox, &blocked, &targets);
    let first: Vec<Option<TargetProximity>> =
        (0..100).map(|i| prox.get_value_by_index(i)).collect();
    compute_proximity_map(&mut prox, &blocked, &targets);
    let second: Vec<Option<TargetProximity>> =
        (0..100).map(|i| prox.get_value_by_index(i)).collect();
    assert_eq!(first, second);
}

#[test]
fn blocked_dominates_target_in_the_seeding() {
    // a cell flagged both blocked and target seeds as unreachable
    let (mut blocked, mut targets, mut prox) = ten_by_ten();
    let change = vec![(Vec2Fix { x: 5500, y: 5500 }, Shape::Circle(400))];
    create_colision_map(&mut targets, &change);
    create_colision_map(&mut blocked, &change);
    compute_proximity_map(&mut prox, &blocked, &targets);
    assert_eq!(proximity_at(&prox, 5, 5), TargetProximity::Unreachable);
    // with the only target buried under an obstacle nothing else is reached
    for x in 0..10i64 {
        for y in 0..10i64 {
            if x == 5 && y == 5 {
                continue;
            }
            assert_eq!(proximity_at(&prox, x, y), TargetProximity::NotComputed);
        }
    }
}

#[test]
fn enclosed_interior_stays_unreachable_from_outside() {
    // an obstacle ring around the target region: outside cells never reach it
    let (mut blocked, mut targets, mut prox) = ten_by_ten();
    let target_change = vec![(Vec2Fix { x: 4500, y: 4500 }, Shape::Circle(400))];
    create_colision_map(&mut targets, &target_change);
    let mut ring: Vec<(Vec2Fix, Shape)> = Vec::new();
    for x in 2..=6i64 {
        for y in 2..=6i64 {
            if x == 2 || x == 6 || y == 2 || y == 6 {
                ring.push((
                    Vec2Fix {
                        x: x * 1000 + 500,
                        y: y * 1000 + 500,
                    },
                    Shape::Circle(400),
                ));
            }
        }
    }
    create_colision_map(&mut blocked, &ring);
    compute_proximity_map(&mut prox, &blocked, &targets);
    // the target still seeds its own cell
    assert_eq!(proximity_at(&prox, 4, 4), TargetProximity::Computed(0));
    // a cell beyond the ring is never reached
    assert_eq!(proximity_at(&prox, 0, 0), TargetProximity::NotComputed);
    assert_eq!(proximity_at(&prox, 9, 9), TargetProximity::NotComputed);
    // the ring itself is unreachable
    assert_eq!(proximity_at(&prox, 2, 2), TargetProximity::Unreachable);
}

#[test]
fn vector_field_has_desired_speed_magnitude() {
    let (blocked, mut targets, mut prox) = ten_by_ten();
    let change = vec![(Vec2Fix { x: 5500, y: 5500 }, Shape::Circle(400))];
    create_colision_map(&mut targets, &change);
    compute_proximity_map(&mut prox, &blocked, &targets);
    let mut field: GridMap<Vec2Fix> =
        GridMap::new(10, 10, area(0, 0, 10_000, 10_000), Vec2Fix { x: 0, y: 0 });
    let speed: i64 = 3000;
    create_vector_map(&mut field, &prox, speed);
    let mut checked = 0;
    for x in 0..10i64 {
        for y in 0..10i64 {
            let v = field.get_value_at_cell(IVec2 { x, y }).unwrap();
            let m2 = (v.x as i128) * (v.x as i128) + (v.y as i128) * (v.y as i128);
            if m2 > 0 {
                let lo = (speed as i128 - 100) * (speed as i128 - 100);
                let hi = (speed as i128 + 100) * (speed as i128 + 100);
                assert!(lo <= m2 && m2 <= hi, "cell ({}, {}) magnitude^2 {}", x, y, m2);
                checked += 1;
            }
        }
    }
    assert!(checked > 50, "only {} cells had a non-zero direction", checked);
}

#[test]
fn vector_field_degrades_to_zero_without_targets() {
    let (blocked, targets, mut prox) = ten_by_ten();
    compute_proximity_map(&mut prox, &blocked, &targets);
    let mut field: GridMap<Vec2Fix> =
        GridMap::new(10, 10, area(0, 0, 10_000, 10_000), Vec2Fix { x: 7, y: 7 });
    create_vector_map(&mut field, &prox, 3000);
    for i in 0..100 {
        assert_eq!(field.get_value_by_index(i), Some(Vec2Fix { x: 0, y: 0 }));
    }
}
