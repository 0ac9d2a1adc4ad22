use crowd_flow::geom::{Vec2Fix, Rect, IVec2};
use crowd_flow::grid::GridMap;
use crowd_flow::components::OutOfBounds;

fn area(min_x: i64, min_y: i64, max_x: i64, max_y: i64) -> Rect {
    Rect {
        min: Vec2Fix { x: min_x, y: min_y },
        max: Vec2Fix { x: max_x, y: max_y },
    }
}

#[test]
fn new_fills_with_default() {
    let g: GridMap<u8> = GridMap::new(4, 3, area(0, 0, 4000, 3000), 7);
    assert_eq!(g.columns, 4);
    assert_eq!(g.rows, 3);
    assert_eq!(g.cell_dimentions.x, 1000);
    assert_eq!(g.cell_dimentions.y, 1000);
    for i in 0..12 {
        assert_eq!(g.get_value_by_index(i), Some(7));
    }
    assert_eq!(g.get_value_by_index(12), None);
}

#[test]
fn get_cell_inside_and_outside() {
    let g: GridMap<u8> = GridMap::new(10, 10, area(-5000, -5000, 5000, 5000), 0);
    let c = g.get_cell(Vec2Fix { x: -4999, y: -4999 }).unwrap();
    assert_eq!((c.x, c.y), (0, 0));
    let c = g.get_cell(Vec2Fix { x: 4999, y: 4999 }).unwrap();
    assert_eq!((c.x, c.y), (9, 9));
    let c = g.get_cell(Vec2Fix { x: 0, y: 0 }).unwrap();
    assert_eq!((c.x, c.y), (5, 5));
    assert!(g.get_cell(Vec2Fix { x: -5001, y: 0 }).is_none());
    assert!(g.get_cell(Vec2Fix { x: 0, y: 5000 }).is_none());
}

#[test]
fn cell_roundtrip_stays_within_half_cell() {
    // the cell center returned for a point is within half a cell of it
    let g: GridMap<u8> = GridMap::new(7, 5, area(-3500, -2500, 3500, 2500), 0);
    let points = [
        (-3500i64, -2500i64),
        (-1, -1),
        (0, 0),
        (1234, -987),
        (3499, 2499),
    ];
    for (px, py) in points {
        let p = Vec2Fix { x: px, y: py };
        let cell = g.get_cell(p).expect("point inside the area");
        let center = g.get_coord(cell);
        assert!((center.x - p.x).abs() <= g.cell_dimentions.x / 2);
        assert!((center.y - p.y).abs() <= g.cell_dimentions.y / 2);
    }
}

#[test]
fn set_value_rejects_out_of_bounds() {
    let mut g: GridMap<u8> = GridMap::new(3, 3, area(0, 0, 3000, 3000), 0);
    assert_eq!(g.set_value(IVec2 { x: 1, y: 2 }, 9), Ok(()));
    assert_eq!(g.get_value_at_cell(IVec2 { x: 1, y: 2 }), Some(9));
    assert_eq!(g.set_value(IVec2 { x: 3, y: 0 }, 9), Err(OutOfBounds));
    assert_eq!(g.set_value(IVec2 { x: 0, y: -1 }, 9), Err(OutOfBounds));
    assert_eq!(g.get_value_at_cell(IVec2 { x: 3, y: 0 }), None);
}

#[test]
fn set_value_by_index_roundtrip() {
    let mut g: GridMap<u16> = GridMap::new(2, 2, area(0, 0, 2000, 2000), 0);
    assert_eq!(g.set_value_by_index(3, 44), Ok(()));
    assert_eq!(g.get_value_by_index(3), Some(44));
    assert_eq!(g.set_value_by_index(4, 44), Err(OutOfBounds));
}

#[test]
fn get_value_at_uses_world_coordinates() {
    let mut g: GridMap<u8> = GridMap::new(4, 4, area(0, 0, 4000, 4000), 0);
    g.set_value(IVec2 { x: 2, y: 1 }, 5).unwrap();
    assert_eq!(g.get_value_at(Vec2Fix { x: 2500, y: 1500 }), Some(5));
    assert_eq!(g.get_value_at(Vec2Fix { x: 500, y: 500 }), Some(0));
    assert_eq!(g.get_value_at(Vec2Fix { x: -10, y: 500 }), None);
}

#[test]
fn cells_within_rect_is_conservative() {
    let g: GridMap<u8> = GridMap::new(10, 10, area(0, 0, 10000, 10000), 0);
    let r = g
        .cells_within_rect(area(1500, 1500, 3500, 3500))
        .expect("non-degenerate search");
    // every cell whose center is inside the search rectangle is in range
    assert!(r.min.x <= 1 && 3 <= r.max.x);
    assert!(r.min.y <= 1 && 3 <= r.max.y);
    assert!(r.min.x >= 0 && r.max.x <= 9 && r.min.y >= 0 && r.max.y <= 9);
}

#[test]
fn cells_within_rect_covers_intersecting_cells() {
    let g: GridMap<u8> = GridMap::new(10, 10, area(0, 0, 10000, 10000), 0);
    // a search rectangle inside cell (0, 0) that misses the center (500, 500)
    let r = g
        .cells_within_rect(area(100, 100, 300, 300))
        .expect("non-degenerate search");
    assert!(r.min.x == 0 && r.min.y == 0);
    assert!(r.max.x >= 0 && r.max.y >= 0);
    // a search rectangle straddling the corner shared by four cells,
    // containing none of their centers
    let r = g
        .cells_within_rect(area(950, 950, 1050, 1050))
        .expect("non-degenerate search");
    assert!(r.min.x <= 0 && 1 <= r.max.x);
    assert!(r.min.y <= 0 && 1 <= r.max.y);
}

#[test]
fn cells_within_rect_degenerate_is_none() {
    let g: GridMap<u8> = GridMap::new(10, 10, area(0, 0, 10000, 10000), 0);
    assert!(g.cells_within_rect(area(500, 500, 500, 2000)).is_none());
    assert!(g.cells_within_rect(area(500, 500, 2000, 500)).is_none());
    assert!(g.cells_within_rect(area(700, 700, 600, 600)).is_none());
}

#[test]
fn reset_overwrites_every_cell() {
    let mut g: GridMap<u8> = GridMap::new(3, 2, area(0, 0, 3000, 2000), 1);
    g.set_value_by_index(0, 9).unwrap();
    g.reset(4);
    for i in 0..6 {
        assert_eq!(g.get_value_by_index(i), Some(4));
    }
}
