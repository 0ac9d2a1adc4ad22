//! Flow-field pathfinding: rasterizing shapes onto the cell-status maps and
//! the wavefront propagation that turns them into a distance-to-target map.

use vstd::prelude::*;
use std::collections::VecDeque;
use crate::geom::{Vec2Fix, IVec2, COORD_LIMIT, bounded};
use crate::components::Shape;
use crate::grid::{GridMap, degenerate_rect_spec, CELLS_LIMIT};
use crate::models::{CellStatus, BlockedStatus, TargetStatus, TargetProximity};
use crate::utils::{point_in_shape_spec, point_in_shape};

verus! {

broadcast use crate::grid::GridMap::lemma_idx_bounds;

/// Cost of stepping to an axis-aligned neighbor, in thousandths of a step.
pub const AXIS_COST: u64 = 1000;

/// Cost of stepping to a diagonal neighbor (the square root of two).
pub const DIAG_COST: u64 = 1414;

/// No computed distance ever exceeds this (three relaxations per cell at
/// diagonal cost, over the largest admissible grid).
pub const DIST_BOUND: u64 = 20_000_000_000;

/// A shape placed at `pos` covers the world point `q` for rasterization:
/// the shape's bounding rectangle is not degenerate, and both it and the
/// shape itself contain the point.  (Candidate cells come from the
/// conservative bounding rectangle; each is re-tested against the
/// rectangle and the shape.)
pub open spec fn covers_spec(pos: Vec2Fix, shape: Shape, q: Vec2Fix) -> bool {
    let rect = shape.rect_with_center_spec(pos);
    &&& !degenerate_rect_spec(rect)
    &&& rect.contains_spec(q)
    &&& point_in_shape_spec(shape, pos, q)
}

/// A changed shape, rasterized at a given cell: the shape covers the cell's
/// center.
pub open spec fn rasterized_spec<T: Copy>(
    g: GridMap<T>,
    pos: Vec2Fix,
    shape: Shape,
    cx: int,
    cy: int,
) -> bool {
    covers_spec(pos, shape, g.cell_center(cx, cy))
}

/// Some of the first `k` (position, shape) pairs covers the point.
pub open spec fn any_covers(shapes: Seq<(Vec2Fix, Shape)>, k: int, q: Vec2Fix) -> bool {
    exists|i: int| 0 <= i < k && covers_spec((#[trigger] shapes[i]).0, shapes[i].1, q)
}

/// Rasterization at a cell is coverage of its center, lifted to the
/// whole sequence of shapes.
pub proof fn lemma_any_rasterized_covers<T: Copy>(
    g: GridMap<T>,
    shapes: Seq<(Vec2Fix, Shape)>,
    k: int,
    cx: int,
    cy: int,
)
    ensures
        any_rasterized(g, shapes, k, cx, cy) == any_covers(shapes, k, g.cell_center(cx, cy)),
{
    let q = g.cell_center(cx, cy);
    if any_rasterized(g, shapes, k, cx, cy) {
        let i = choose|i: int| 0 <= i < k && rasterized_spec(g, shapes[i].0, shapes[i].1, cx, cy);
        assert(covers_spec(shapes[i].0, shapes[i].1, q));
        assert(any_covers(shapes, k, q));
    }
    if any_covers(shapes, k, q) {
        let i = choose|i: int| 0 <= i < k && covers_spec((#[trigger] shapes[i]).0, shapes[i].1, q);
        assert(rasterized_spec(g, shapes[i].0, shapes[i].1, cx, cy));
        assert(any_rasterized(g, shapes, k, cx, cy));
    }
}

/// Shapes with the same content cover the same points.
pub proof fn lemma_shape_like_covers(a: Shape, b: Shape)
    requires
        crate::components::shape_like(a, b),
    ensures
        forall|pos: Vec2Fix, q: Vec2Fix| #[trigger] covers_spec(pos, a, q) == covers_spec(
            pos,
            b,
            q,
        ),
{
    crate::components::lemma_shape_like_wf(a, b);
    assert forall|pos: Vec2Fix, q: Vec2Fix| #[trigger] covers_spec(pos, a, q) == covers_spec(
        pos,
        b,
        q,
    ) by {
        assert(a.rect_with_center_spec(pos) == b.rect_with_center_spec(pos));
        match (a, b) {
            (Shape::Circle(r1), Shape::Circle(r2)) => {},
            (Shape::Polygon(p1), Shape::Polygon(p2)) => {
                assert(p1@ == p2@);
                assert(point_in_shape_spec(a, pos, q) == point_in_shape_spec(b, pos, q));
            },
            _ => {},
        }
    }
}

/// Some of the first `k` changed shapes is rasterized at the cell.
pub open spec fn any_rasterized<T: Copy>(
    g: GridMap<T>,
    shapes: Seq<(Vec2Fix, Shape)>,
    k: int,
    cx: int,
    cy: int,
) -> bool {
    exists|i: int| 0 <= i < k && rasterized_spec(g, shapes[i].0, shapes[i].1, cx, cy)
}

/// Pushing one pair extends the covered set by exactly that pair's
/// coverage.
pub proof fn lemma_any_covers_push(shapes: Seq<(Vec2Fix, Shape)>, pr: (Vec2Fix, Shape), q: Vec2Fix)
    ensures
        any_covers(shapes.push(pr), shapes.len() as int + 1, q) == (any_covers(
            shapes,
            shapes.len() as int,
            q,
        ) || covers_spec(pr.0, pr.1, q)),
{
    let n = shapes.len() as int;
    let s2 = shapes.push(pr);
    if any_covers(s2, n + 1, q) {
        let i = choose|i: int| 0 <= i < n + 1 && covers_spec((#[trigger] s2[i]).0, s2[i].1, q);
        if i < n {
            assert(s2[i] == shapes[i]);
            assert(any_covers(shapes, n, q));
        } else {
            assert(s2[i] == pr);
        }
    }
    if any_covers(shapes, n, q) {
        let i = choose|i: int| 0 <= i < n && covers_spec((#[trigger] shapes[i]).0, shapes[i].1, q);
        assert(s2[i] == shapes[i]);
        assert(covers_spec(s2[i].0, s2[i].1, q));
        assert(any_covers(s2, n + 1, q));
    }
    if covers_spec(pr.0, pr.1, q) {
        assert(s2[n] == pr);
        assert(covers_spec(s2[n].0, s2[n].1, q));
        assert(any_covers(s2, n + 1, q));
    }
}

/// A point within a circle lies within the circle's bounding rectangle, so
/// the rectangle pre-filter never hides a covered cell of a circular shape.
pub proof fn lemma_circle_within_rect(radius: int, pos: Vec2Fix, p: Vec2Fix)
    requires
        0 <= radius,
        crate::utils::in_circle_spec(pos, radius, p),
    ensures
        pos.x - radius <= p.x <= pos.x + radius,
        pos.y - radius <= p.y <= pos.y + radius,
{
    assert(-radius <= p.x - pos.x <= radius && -radius <= p.y - pos.y <= radius)
        by (nonlinear_arith)
        requires
            (p.x - pos.x) * (p.x - pos.x) + (p.y - pos.y) * (p.y - pos.y) <= radius * radius,
            0 <= radius,
    {}
}

/// For a circular shape the bounding-rectangle pre-filter is harmless: a
/// valid cell whose center lies within the circle is rasterized.
pub proof fn lemma_circle_rasterized<T: Copy>(
    g: GridMap<T>,
    pos: Vec2Fix,
    radius: i64,
    cx: int,
    cy: int,
)
    requires
        1 <= radius <= crate::components::RADIUS_LIMIT,
        bounded(pos, COORD_LIMIT as int),
        crate::utils::in_circle_spec(pos, radius as int, g.cell_center(cx, cy)),
    ensures
        rasterized_spec(g, pos, Shape::Circle(radius), cx, cy),
{
    lemma_circle_within_rect(radius as int, pos, g.cell_center(cx, cy));
    let rect = Shape::Circle(radius).rect_with_center_spec(pos);
    assert(rect.min.x == pos.x - radius && rect.max.x == pos.x + radius && rect.min.y == pos.y
        - radius && rect.max.y == pos.y + radius);
}

/// For a polygonal shape the bounding-rectangle pre-filter is harmless as
/// well: a point inside by the crossing rule lies within the vertex
/// extents, so a valid cell whose center the polygon contains is
/// rasterized.
pub proof fn lemma_polygon_rasterized<T: Copy>(
    g: GridMap<T>,
    pos: Vec2Fix,
    shape: Shape,
    cx: int,
    cy: int,
)
    requires
        g.inv(),
        g.valid_cell(cx, cy),
        shape is Polygon,
        shape.wf(),
        bounded(pos, COORD_LIMIT as int),
        point_in_shape_spec(shape, pos, g.cell_center(cx, cy)),
    ensures
        rasterized_spec(g, pos, shape, cx, cy),
{
    g.lemma_cell_center_in_area(cx, cy);
    let center = g.cell_center(cx, cy);
    match shape {
        Shape::Polygon(pts) => {
            let n = pts@.len() as int;
            let rel = crate::utils::rel_point_spec(pos, center);
            crate::utils::lemma_polygon_inside_bbox(pts@, rel);
            crate::utils::lemma_poly_extent_bounds(pts@, n, COORD_LIMIT as int);
            let min_x = crate::components::poly_min_x(pts@, n);
            let max_x = crate::components::poly_max_x(pts@, n);
            let min_y = crate::components::poly_min_y(pts@, n);
            let max_y = crate::components::poly_max_y(pts@, n);
            let rect = shape.rect_with_center_spec(pos);
            assert(rect.min.x == pos.x + min_x && rect.max.x == pos.x + max_x && rect.min.y
                == pos.y + min_y && rect.max.y == pos.y + max_y);
            assert(rel.x == center.x - pos.x && rel.y == center.y - pos.y);
            assert(rect.contains_spec(center));
            assert(!degenerate_rect_spec(rect));
        },
        Shape::Circle(_) => {},
    }
}

/// Rasterizes the changed shapes onto the map: when at least one shape
/// changed, the whole map is reset and every cell ends flagged exactly when
/// some changed shape is rasterized at it; with no changed shape the map is
/// left untouched.
#[verifier::loop_isolation(false)]
#[verifier::rlimit(60)]
pub fn create_colision_map<T: CellStatus + Copy>(
    map: &mut GridMap<T>,
    changed: &Vec<(Vec2Fix, Shape)>,
)
    requires
        old(map).inv(),
        forall|i: int| 0 <= i < changed@.len() ==> (#[trigger] changed@[i]).1.wf()
            && bounded(changed@[i].0, COORD_LIMIT as int),
    ensures
        final(map).inv(),
        final(map).same_geometry(*old(map)),
        final(map)@.len() == old(map)@.len(),
        changed@.len() == 0 ==> final(map)@ == old(map)@,
        changed@.len() > 0 ==> forall|cx: int, cy: int|
            old(map).valid_cell(cx, cy) ==> final(map)@[old(map).idx(cx, cy)] == (
            if any_rasterized(*old(map), changed@, changed@.len() as int, cx, cy) {
                T::flagged_spec()
            } else {
                T::default_spec()
            }),
{
    if changed.len() == 0 {
        return;
    }
    map.reset(T::default_value());
    proof {
        T::lemma_distinct();
        map.lemma_counts_bounded();
    }
    let mut s: usize = 0;
    while s < changed.len()
        invariant
            0 <= s <= changed@.len(),
            map.inv(),
            map.same_geometry(*old(map)),
            map@.len() == old(map)@.len(),
            forall|cx: int, cy: int|
                old(map).valid_cell(cx, cy) ==> map@[old(map).idx(cx, cy)] == (
                if any_rasterized(*old(map), changed@, s as int, cx, cy) {
                    T::flagged_spec()
                } else {
                    T::default_spec()
                }),
        decreases changed@.len() - s,
    {
        let entry = &changed[s];
        let pos = entry.0;
        let shape = &entry.1;
        let rect = shape.get_rectangle_with_center(pos);
        let region = map.cells_within_rect(rect);
        proof {
            assert forall|cx: int, cy: int|
                old(map).valid_cell(cx, cy) && rasterized_spec(
                    *old(map),
                    pos,
                    changed@[s as int].1,
                    cx,
                    cy,
                ) implies (region is Some && region->Some_0.min.x <= cx <= region->Some_0.max.x
                && region->Some_0.min.y <= cy <= region->Some_0.max.y) by {
                let cc = map.cell_center(cx, cy);
                assert(cc == old(map).cell_center(cx, cy));
                assert(map.valid_cell(cx, cy));
            }
        }
        match region {
            None => {
                proof {
                    assert forall|cx: int, cy: int| old(map).valid_cell(cx, cy) implies
                        any_rasterized(*old(map), changed@, (s + 1) as int, cx, cy)
                            == any_rasterized(*old(map), changed@, s as int, cx, cy) by {
                        if any_rasterized(*old(map), changed@, (s + 1) as int, cx, cy) {
                            let i = choose|i: int| 0 <= i < s + 1 && rasterized_spec(
                                *old(map),
                                changed@[i].0,
                                changed@[i].1,
                                cx,
                                cy,
                            );
                            assert(i < s);
                            assert(any_rasterized(*old(map), changed@, s as int, cx, cy));
                        }
                        if any_rasterized(*old(map), changed@, s as int, cx, cy) {
                            let i = choose|i: int| 0 <= i < s && rasterized_spec(
                                *old(map),
                                changed@[i].0,
                                changed@[i].1,
                                cx,
                                cy,
                            );
                            assert(rasterized_spec(*old(map), changed@[i].0, changed@[i].1, cx, cy));
                        }
                    }
                }
            },
            Some(rg) => {
                let x_min = rg.min.x;
                let x_max = rg.max.x;
                let y_min = rg.min.y;
                let y_max = rg.max.y;
                let mut x = x_min;
                while x <= x_max
                    invariant
                        x_min <= x <= x_max + 1,
                        map.inv(),
                        map.same_geometry(*old(map)),
                        map@.len() == old(map)@.len(),
                        forall|cx: int, cy: int|
                            old(map).valid_cell(cx, cy) ==> map@[old(map).idx(cx, cy)] == (
                            if any_rasterized(*old(map), changed@, s as int, cx, cy)
                                || (rasterized_spec(*old(map), pos, changed@[s as int].1, cx, cy)
                                    && (cx < x || (cx == x && cy < y_min))) {
                                T::flagged_spec()
                            } else {
                                T::default_spec()
                            }),
                    decreases x_max + 1 - x,
                {
                    let mut y = y_min;
                    while y <= y_max
                        invariant
                            x_min <= x <= x_max,
                            y_min <= y <= y_max + 1,
                            map.inv(),
                            map.same_geometry(*old(map)),
                            map@.len() == old(map)@.len(),
                            forall|cx: int, cy: int|
                                old(map).valid_cell(cx, cy) ==> map@[old(map).idx(cx, cy)] == (
                                if any_rasterized(*old(map), changed@, s as int, cx, cy)
                                    || (rasterized_spec(*old(map), pos, changed@[s as int].1, cx, cy)
                                        && (cx < x || (cx == x && cy < y))) {
                                    T::flagged_spec()
                                } else {
                                    T::default_spec()
                                }),
                        decreases y_max + 1 - y,
                    {
                        let cell = IVec2 { x, y };
                        let covered = {
                            let value = map.get_value_at_cell(cell);
                            match value {
                                Some(v) => v.is_flagged(),
                                None => false,
                            }
                        };
                        if !covered {
                            let cell_center = map.get_coord(cell);
                            proof {
                                assert(cell_center == old(map).cell_center(x as int, y as int));
                                assert forall|cx: int, cy: int|
                                    old(map).valid_cell(cx, cy) && !(cx == x && cy == y) implies
                                    old(map).idx(cx, cy) != old(map).idx(x as int, y as int) by {
                                    old(map).lemma_idx_injective(cx, cy, x as int, y as int);
                                }
                            }
                            let inside = rect.contains(cell_center)
                                && point_in_shape(shape, pos, cell_center);
                            if inside {
                                let _ = map.set_value(cell, T::get_non_default_value());
                            } else {
                                let _ = map.set_value(cell, T::default_value());
                            }
                        }
                        y = y + 1;
                    }
                    x = x + 1;
                }
                proof {
                    assert forall|cx: int, cy: int| old(map).valid_cell(cx, cy) implies
                        (any_rasterized(*old(map), changed@, s as int, cx, cy)
                            || rasterized_spec(*old(map), pos, changed@[s as int].1, cx, cy))
                            == any_rasterized(*old(map), changed@, (s + 1) as int, cx, cy) by {
                        if any_rasterized(*old(map), changed@, (s + 1) as int, cx, cy) {
                            let i = choose|i: int| 0 <= i < s + 1 && rasterized_spec(
                                *old(map),
                                changed@[i].0,
                                changed@[i].1,
                                cx,
                                cy,
                            );
                            if i < s {
                                assert(any_rasterized(*old(map), changed@, s as int, cx, cy));
                            }
                        }
                        if any_rasterized(*old(map), changed@, s as int, cx, cy) {
                            let i = choose|i: int| 0 <= i < s && rasterized_spec(
                                *old(map),
                                changed@[i].0,
                                changed@[i].1,
                                cx,
                                cy,
                            );
                            assert(rasterized_spec(*old(map), changed@[i].0, changed@[i].1, cx, cy));
                        }
                        if rasterized_spec(*old(map), pos, changed@[s as int].1, cx, cy) {
                            assert(any_rasterized(*old(map), changed@, (s + 1) as int, cx, cy));
                        }
                    }
                }
            },
        }
        s = s + 1;
    }
}

/// The cell holds an obstacle.
pub open spec fn blocked_at(ob: GridMap<BlockedStatus>, cx: int, cy: int) -> bool {
    ob@[ob.idx(cx, cy)] == BlockedStatus::Blocked
}

/// The cell holds a target.
pub open spec fn target_at(tg: GridMap<TargetStatus>, cx: int, cy: int) -> bool {
    tg@[tg.idx(cx, cy)] == TargetStatus::IsTarget
}

/// A legal neighbor offset: one 8-connected step.
pub open spec fn is_offset(dx: int, dy: int) -> bool {
    -1 <= dx <= 1 && -1 <= dy <= 1 && !(dx == 0 && dy == 0)
}

/// The step cost of an offset: axis steps cost `AXIS_COST`, diagonal steps
/// `DIAG_COST`.
pub open spec fn step_cost(dx: int, dy: int) -> u64 {
    if dx == 0 || dy == 0 {
        AXIS_COST
    } else {
        DIAG_COST
    }
}

/// An 8-connected walk over unblocked cells that starts on a target cell:
/// the witness shape for an achievable distance.
pub open spec fn path_ok(
    ob: GridMap<BlockedStatus>,
    tg: GridMap<TargetStatus>,
    p: Seq<IVec2>,
) -> bool {
    &&& p.len() >= 1
    &&& forall|i: int| 0 <= i < p.len() ==> ob.valid_cell((#[trigger] p[i]).x as int, p[i].y as int)
        && !blocked_at(ob, p[i].x as int, p[i].y as int)
    &&& target_at(tg, p[0].x as int, p[0].y as int)
    &&& forall|i: int| 1 <= i < p.len() ==> is_offset(
        (#[trigger] p[i]).x - p[i - 1].x,
        p[i].y - p[i - 1].y,
    )
}

/// The summed step cost of a walk.
pub open spec fn path_cost(p: Seq<IVec2>) -> int
    decreases p.len(),
{
    if p.len() <= 1 {
        0
    } else {
        path_cost(p.drop_last()) + step_cost(
            p.last().x - p[p.len() - 2].x,
            p.last().y - p[p.len() - 2].y,
        )
    }
}

/// Every computed distance in the proximity map is realized by some
/// unblocked walk from a target cell: the wavefront never invents a value,
/// so each stored distance is at least the true path distance.
pub open spec fn distances_achievable(
    m: GridMap<TargetProximity>,
    ob: GridMap<BlockedStatus>,
    tg: GridMap<TargetStatus>,
) -> bool {
    forall|cx: int, cy: int| m.valid_cell(cx, cy)
        && (#[trigger] m@[m.idx(cx, cy)]) is Computed ==> exists|p: Seq<IVec2>|
        path_ok(ob, tg, p) && p.last() == (IVec2 { x: cx as i64, y: cy as i64 })
            && path_cost(p) == m@[m.idx(cx, cy)]->Computed_0
}

/// A single unblocked target cell is a zero-cost walk to itself.
pub proof fn lemma_path_single(ob: GridMap<BlockedStatus>, tg: GridMap<TargetStatus>, c: IVec2)
    requires
        ob.valid_cell(c.x as int, c.y as int),
        !blocked_at(ob, c.x as int, c.y as int),
        target_at(tg, c.x as int, c.y as int),
    ensures
        path_ok(ob, tg, seq![c]),
        path_cost(seq![c]) == 0,
        seq![c].last() == c,
{
}

/// Extending a walk by one admissible step extends its cost by that step's
/// cost.
pub proof fn lemma_path_extend(
    ob: GridMap<BlockedStatus>,
    tg: GridMap<TargetStatus>,
    p: Seq<IVec2>,
    c: IVec2,
)
    requires
        path_ok(ob, tg, p),
        ob.valid_cell(c.x as int, c.y as int),
        !blocked_at(ob, c.x as int, c.y as int),
        is_offset(c.x - p.last().x, c.y - p.last().y),
    ensures
        path_ok(ob, tg, p.push(c)),
        path_cost(p.push(c)) == path_cost(p) + step_cost(c.x - p.last().x, c.y - p.last().y),
        p.push(c).last() == c,
{
    let q = p.push(c);
    assert(q.drop_last() =~= p);
    assert(q.last() == c);
    assert(q[q.len() - 2] == p.last());
    assert forall|i: int| 1 <= i < q.len() implies is_offset(
        (#[trigger] q[i]).x - q[i - 1].x,
        q[i].y - q[i - 1].y,
    ) by {
        if i < q.len() - 1 {
            assert(q[i] == p[i] && q[i - 1] == p[i - 1]);
        }
    }
}

/// Wavefront exhaustion closes the computed region under reachability:
/// after propagation, every cell joined to a target by an unblocked walk
/// holds a computed distance.  Together with `distances_achievable` this
/// characterizes the computed region exactly as the reachable one.
pub proof fn lemma_reachable_is_computed(
    m: GridMap<TargetProximity>,
    ob: GridMap<BlockedStatus>,
    tg: GridMap<TargetStatus>,
    p: Seq<IVec2>,
)
    requires
        m.same_geometry(ob),
        char_inv(m, ob, tg),
        forall|cx: int, cy: int| m.valid_cell(cx, cy)
            && (#[trigger] m@[m.idx(cx, cy)]) is Computed ==> neighbors_done(m, cx, cy),
        path_ok(ob, tg, p),
    ensures
        m@[m.idx(p.last().x as int, p.last().y as int)] is Computed,
    decreases p.len(),
{
    let n = p.len() as int;
    let c = p.last();
    assert(ob.valid_cell(c.x as int, c.y as int) && !blocked_at(ob, c.x as int, c.y as int));
    assert(m.valid_cell(c.x as int, c.y as int));
    if n == 1 {
        assert(c == p[0]);
        assert(target_at(tg, c.x as int, c.y as int));
    } else {
        let q = p.drop_last();
        assert(q.len() == n - 1);
        assert forall|i: int| 0 <= i < q.len() implies ob.valid_cell(
            (#[trigger] q[i]).x as int,
            q[i].y as int,
        ) && !blocked_at(ob, q[i].x as int, q[i].y as int) by {
            assert(q[i] == p[i]);
        }
        assert forall|i: int| 1 <= i < q.len() implies is_offset(
            (#[trigger] q[i]).x - q[i - 1].x,
            q[i].y - q[i - 1].y,
        ) by {
            assert(q[i] == p[i] && q[i - 1] == p[i - 1]);
        }
        assert(q[0] == p[0]);
        lemma_reachable_is_computed(m, ob, tg, q);
        let b = q.last();
        assert(b == p[n - 2]);
        assert(m@[m.idx(b.x as int, b.y as int)] is Computed);
        assert(neighbors_done(m, b.x as int, b.y as int));
        let dx = c.x - b.x;
        let dy = c.y - b.y;
        assert(is_offset(dx as int, dy as int));
        assert(!(m@[m.idx(b.x as int + dx, b.y as int + dy)] is NotComputed));
        assert(!(m@[m.idx(c.x as int, c.y as int)] is Unreachable));
    }
}

/// Number of `NotComputed` cells in a proximity map's contents.
pub open spec fn count_nc(s: Seq<TargetProximity>) -> nat
    decreases s.len(),
{
    if s.len() == 0 {
        0
    } else {
        count_nc(s.drop_last()) + if s.last() is NotComputed {
            1nat
        } else {
            0nat
        }
    }
}

/// Updating one cell changes the `NotComputed` count by the difference of
/// the old and new values' contributions.
pub proof fn lemma_count_nc_update(s: Seq<TargetProximity>, i: int, v: TargetProximity)
    requires
        0 <= i < s.len(),
    ensures
        count_nc(s.update(i, v)) == count_nc(s) - (if s[i] is NotComputed { 1int } else { 0int })
            + (if v is NotComputed { 1int } else { 0int }),
    decreases s.len(),
{
    let t = s.update(i, v);
    if i == s.len() - 1 {
        assert(t.drop_last() =~= s.drop_last());
    } else {
        assert(t.drop_last() =~= s.drop_last().update(i, v));
        lemma_count_nc_update(s.drop_last(), i, v);
    }
}

/// The steering weight of one neighbor: the fixed-point reciprocal of its
/// computed distance, so closer (and especially target-adjacent) neighbors
/// dominate; a zero-distance neighbor contributes the maximal weight, and
/// unreachable, uncomputed or out-of-grid neighbors contribute nothing.
pub open spec fn neighbor_weight(
    m: GridMap<TargetProximity>,
    cx: int,
    cy: int,
    dx: int,
    dy: int,
) -> int {
    if m.valid_cell(cx + dx, cy + dy) && m@[m.idx(cx + dx, cy + dy)] is Computed {
        let d = m@[m.idx(cx + dx, cy + dy)]->Computed_0 as int;
        1_000_000_000_000int / (if d < 1 {
            1int
        } else {
            d
        })
    } else {
        0
    }
}

/// The x component of the summed neighbor contributions at a cell (each
/// neighbor's weight times its x offset).
pub open spec fn flow_x(m: GridMap<TargetProximity>, cx: int, cy: int) -> int {
    -neighbor_weight(m, cx, cy, -1, -1) - neighbor_weight(m, cx, cy, -1, 0)
        - neighbor_weight(m, cx, cy, -1, 1) + neighbor_weight(m, cx, cy, 1, -1)
        + neighbor_weight(m, cx, cy, 1, 0) + neighbor_weight(m, cx, cy, 1, 1)
}

/// The y component of the summed neighbor contributions at a cell.
pub open spec fn flow_y(m: GridMap<TargetProximity>, cx: int, cy: int) -> int {
    -neighbor_weight(m, cx, cy, -1, -1) - neighbor_weight(m, cx, cy, 0, -1)
        - neighbor_weight(m, cx, cy, 1, -1) + neighbor_weight(m, cx, cy, -1, 1)
        + neighbor_weight(m, cx, cy, 0, 1) + neighbor_weight(m, cx, cy, 1, 1)
}

/// The desired-velocity vector stored at a cell: the neighbor contribution
/// sum rescaled to the desired speed (a zero sum degrades to the zero
/// vector).
pub open spec fn flow_vector_spec(
    m: GridMap<TargetProximity>,
    cx: int,
    cy: int,
    speed: int,
) -> Vec2Fix {
    crate::geom::scaled_vec_spec(flow_x(m, cx, cy), flow_y(m, cx, cy), speed)
}

/// The flow field never exceeds the desired speed componentwise, and a cell
/// whose neighborhood sums to zero holds the zero vector rather than an
/// undefined direction.
pub proof fn lemma_flow_vector_magnitude(m: GridMap<TargetProximity>, cx: int, cy: int, speed: int)
    requires
        0 <= speed,
    ensures
        -speed <= flow_vector_spec(m, cx, cy, speed).x <= speed,
        -speed <= flow_vector_spec(m, cx, cy, speed).y <= speed,
        flow_x(m, cx, cy) == 0 && flow_y(m, cx, cy) == 0 ==> flow_vector_spec(m, cx, cy, speed)
            == (Vec2Fix { x: 0, y: 0 }),
{
    crate::geom::lemma_scaled_vec_bounded(flow_x(m, cx, cy), flow_y(m, cx, cy), speed);
}

/// The flow field's magnitude is the desired speed up to fixed-point
/// rounding: for a cell with a non-degenerate neighborhood sum of floor
/// length `l`, the squared magnitude of the stored vector undershoots
/// `speed^2` by at most `4 * speed` and overshoots by at most
/// `2 * speed^2 / l`.
pub proof fn lemma_flow_vector_speed(m: GridMap<TargetProximity>, cx: int, cy: int, speed: int)
    requires
        0 <= speed <= 1_000_000_000,
        1 <= crate::geom::fsqrt(
            (flow_x(m, cx, cy) * flow_x(m, cx, cy) + flow_y(m, cx, cy) * flow_y(m, cx, cy)) as nat,
        ),
    ensures
        ({
            let l = crate::geom::fsqrt(
                (flow_x(m, cx, cy) * flow_x(m, cx, cy) + flow_y(m, cx, cy) * flow_y(
                    m,
                    cx,
                    cy,
                )) as nat,
            ) as int;
            let v = flow_vector_spec(m, cx, cy, speed);
            let m2 = v.x * v.x + v.y * v.y;
            &&& (m2 - speed * speed) * l <= 2 * (speed * speed)
            &&& m2 >= speed * speed - 4 * speed
        }),
{
    crate::geom::lemma_scaled_vec_magnitude(flow_x(m, cx, cy), flow_y(m, cx, cy), speed);
}

/// The steering weight of one neighbor, executable form.
fn cell_weight(m: &GridMap<TargetProximity>, cx: i64, cy: i64, dx: i64, dy: i64) -> (w: i64)
    requires
        m.inv(),
        m.valid_cell(cx as int, cy as int),
        -1 <= dx <= 1,
        -1 <= dy <= 1,
    ensures
        w == neighbor_weight(*m, cx as int, cy as int, dx as int, dy as int),
        0 <= w <= 1_000_000_000_000,
{
    proof {
        m.lemma_counts_bounded();
    }
    match m.get_value_at_cell(IVec2 { x: cx + dx, y: cy + dy }) {
        Some(TargetProximity::Computed(d)) => {
            let dd: u64 = if d < 1 {
                1
            } else {
                d
            };
            let w = 1_000_000_000_000u64 / dd;
            proof {
                vstd::arithmetic::div_mod::lemma_div_nonincreasing(1_000_000_000_000, dd as int);
                vstd::arithmetic::div_mod::lemma_div_pos_is_pos(1_000_000_000_000, dd as int);
            }
            w as i64
        },
        _ => 0,
    }
}

/// Rebuilds the vector field from the proximity map: every cell receives
/// the sum of its 8 neighbors' reciprocal-distance contributions, rescaled
/// to the desired speed.
#[verifier::loop_isolation(false)]
#[verifier::rlimit(60)]
pub fn create_vector_map(
    vector_field: &mut GridMap<Vec2Fix>,
    proximity_map: &GridMap<TargetProximity>,
    desired_speed: i64,
)
    requires
        old(vector_field).inv(),
        proximity_map.inv(),
        old(vector_field).same_geometry(*proximity_map),
        0 <= desired_speed <= 1_000_000_000,
    ensures
        final(vector_field).inv(),
        final(vector_field).same_geometry(*old(vector_field)),
        final(vector_field)@.len() == old(vector_field)@.len(),
        forall|cx: int, cy: int| final(vector_field).valid_cell(cx, cy)
            ==> #[trigger] final(vector_field)@[final(vector_field).idx(cx, cy)]
            == flow_vector_spec(*proximity_map, cx, cy, desired_speed as int),
        forall|cx: int, cy: int| final(vector_field).valid_cell(cx, cy) ==> bounded(
            #[trigger] final(vector_field)@[final(vector_field).idx(cx, cy)],
            desired_speed as int,
        ),
{
    proof {
        vector_field.lemma_counts_bounded();
    }
    let columns = vector_field.columns;
    let rows = vector_field.rows;
    let mut x: usize = 0;
    while x < columns
        invariant
            0 <= x <= columns,
            vector_field.inv(),
            vector_field.same_geometry(*old(vector_field)),
            vector_field@.len() == old(vector_field)@.len(),
            forall|cx: int, cy: int| vector_field.valid_cell(cx, cy) && cx < x
                ==> #[trigger] vector_field@[vector_field.idx(cx, cy)] == flow_vector_spec(
                *proximity_map,
                cx,
                cy,
                desired_speed as int,
            ),
        decreases columns - x,
    {
        let mut y: usize = 0;
        while y < rows
            invariant
                0 <= x < columns,
                0 <= y <= rows,
                vector_field.inv(),
                vector_field.same_geometry(*old(vector_field)),
                vector_field@.len() == old(vector_field)@.len(),
                forall|cx: int, cy: int| vector_field.valid_cell(cx, cy)
                    && (cx < x || (cx == x && cy < y)) ==> #[trigger] vector_field@[
                    vector_field.idx(cx, cy)] == flow_vector_spec(
                    *proximity_map,
                    cx,
                    cy,
                    desired_speed as int,
                ),
            decreases rows - y,
        {
            let cx = x as i64;
            let cy = y as i64;
            let w_mm = cell_weight(proximity_map, cx, cy, -1, -1);
            let w_m0 = cell_weight(proximity_map, cx, cy, -1, 0);
            let w_mp = cell_weight(proximity_map, cx, cy, -1, 1);
            let w_0m = cell_weight(proximity_map, cx, cy, 0, -1);
            let w_0p = cell_weight(proximity_map, cx, cy, 0, 1);
            let w_pm = cell_weight(proximity_map, cx, cy, 1, -1);
            let w_p0 = cell_weight(proximity_map, cx, cy, 1, 0);
            let w_pp = cell_weight(proximity_map, cx, cy, 1, 1);
            let fx = -w_mm - w_m0 - w_mp + w_pm + w_p0 + w_pp;
            let fy = -w_mm - w_0m - w_pm + w_mp + w_0p + w_pp;
            let v = crate::geom::scale_to(fx, fy, desired_speed);
            let ghost prev_map = *vector_field;
            let _ = vector_field.set_value(IVec2 { x: cx, y: cy }, v);
            proof {
                assert forall|ax: int, ay: int| vector_field.valid_cell(ax, ay)
                    && (ax < x || (ax == x && ay < y + 1)) implies #[trigger] vector_field@[
                    vector_field.idx(ax, ay)] == flow_vector_spec(
                    *proximity_map,
                    ax,
                    ay,
                    desired_speed as int,
                ) by {
                    let w = prev_map@[prev_map.idx(ax, ay)];
                    prev_map.lemma_idx_injective(ax, ay, x as int, y as int);
                }
            }
            y = y + 1;
        }
        x = x + 1;
    }
    proof {
        assert forall|cx: int, cy: int| vector_field.valid_cell(cx, cy) implies bounded(
            #[trigger] vector_field@[vector_field.idx(cx, cy)],
            desired_speed as int,
        ) by {
            lemma_flow_vector_magnitude(*proximity_map, cx, cy, desired_speed as int);
        }
    }
}

/// A map of nothing but `NotComputed` counts its whole length.
pub proof fn lemma_count_nc_all(s: Seq<TargetProximity>)
    requires
        forall|i: int| 0 <= i < s.len() ==> s[i] is NotComputed,
    ensures
        count_nc(s) == s.len(),
    decreases s.len(),
{
    if s.len() > 0 {
        lemma_count_nc_all(s.drop_last());
    }
}

/// The seed value of a cell: blocked cells are `Unreachable` (blocked
/// dominates target), target cells start the wavefront at zero, the rest
/// await computation.
pub open spec fn seed_value(blocked: bool, target: bool) -> TargetProximity {
    if blocked {
        TargetProximity::Unreachable
    } else if target {
        TargetProximity::Computed(0u64)
    } else {
        TargetProximity::NotComputed
    }
}

/// The standing characterization of the proximity map against the blocked
/// and target maps: `Unreachable` exactly on blocked cells, zero distance on
/// unblocked target cells, and positive distances (at least one axis step)
/// only on cells that are neither.
pub open spec fn char_inv(
    m: GridMap<TargetProximity>,
    ob: GridMap<BlockedStatus>,
    tg: GridMap<TargetStatus>,
) -> bool {
    forall|cx: int, cy: int| m.valid_cell(cx, cy) ==> {
        let v = #[trigger] m@[m.idx(cx, cy)];
        &&& (v is Unreachable <==> blocked_at(ob, cx, cy))
        &&& (!blocked_at(ob, cx, cy) && target_at(tg, cx, cy) ==> v == TargetProximity::Computed(
            0u64,
        ))
        &&& ((!blocked_at(ob, cx, cy) && !target_at(tg, cx, cy) && v is Computed) ==> AXIS_COST
            <= v->Computed_0)
    }
}

/// Every computed distance in the map is at most `b`.
pub open spec fn values_bounded(m: GridMap<TargetProximity>, b: int) -> bool {
    forall|cx: int, cy: int| m.valid_cell(cx, cy)
        && (#[trigger] m@[m.idx(cx, cy)]) is Computed ==> m@[m.idx(cx, cy)]->Computed_0 <= b
}

/// All 8-connected neighbors of the cell hold a value other than
/// `NotComputed` (the wavefront has washed over them).
pub open spec fn neighbors_done(m: GridMap<TargetProximity>, cx: int, cy: int) -> bool {
    forall|dx: int, dy: int| is_offset(dx, dy) && m.valid_cell(cx + dx, cy + dy) ==>
        !((#[trigger] m@[m.idx(cx + dx, cy + dy)]) is NotComputed)
}

/// Relaxes one neighbor of a popped wavefront cell: a `NotComputed`
/// neighbor receives the pivot's distance plus the step cost and joins the
/// queue; a `Computed` neighbor keeps the smaller of its distance and that
/// sum; blocked and out-of-range neighbors are left alone.
#[verifier::rlimit(60)]
fn relax_neighbor(
    proximity_map: &mut GridMap<TargetProximity>,
    open_list: &mut VecDeque<IVec2>,
    ob: &GridMap<BlockedStatus>,
    tg: &GridMap<TargetStatus>,
    pivot: IVec2,
    dx: i64,
    dy: i64,
    vp: u64,
    Ghost(bound): Ghost<int>,
)
    requires
        old(proximity_map).inv(),
        ob.inv(),
        tg.inv(),
        old(proximity_map).same_geometry(*ob),
        old(proximity_map).same_geometry(*tg),
        old(proximity_map).valid_cell(pivot.x as int, pivot.y as int),
        -1 <= dx <= 1,
        -1 <= dy <= 1,
        !(dx == 0 && dy == 0),
        char_inv(*old(proximity_map), *ob, *tg),
        values_bounded(*old(proximity_map), bound),
        vp + DIAG_COST <= bound,
        bound <= DIST_BOUND,
        old(proximity_map)@[old(proximity_map).idx(pivot.x as int, pivot.y as int)]
            == TargetProximity::Computed(vp),
        distances_achievable(*old(proximity_map), *ob, *tg),
    ensures
        final(proximity_map).inv(),
        final(proximity_map).same_geometry(*old(proximity_map)),
        final(proximity_map)@.len() == old(proximity_map)@.len(),
        char_inv(*final(proximity_map), *ob, *tg),
        values_bounded(*final(proximity_map), bound),
        distances_achievable(*final(proximity_map), *ob, *tg),
        final(proximity_map)@[old(proximity_map).idx(pivot.x as int, pivot.y as int)]
            == TargetProximity::Computed(vp),
        ({
            let cur = IVec2 { x: (pivot.x + dx) as i64, y: (pivot.y + dy) as i64 };
            let pushed = old(proximity_map).valid_cell(cur.x as int, cur.y as int)
                && old(proximity_map)@[old(proximity_map).idx(cur.x as int, cur.y as int)]
                is NotComputed;
            final(open_list)@ == if pushed {
                old(open_list)@.push(cur)
            } else {
                old(open_list)@
            }
        }),
        final(open_list)@.len() + count_nc(final(proximity_map)@) == old(open_list)@.len()
            + count_nc(old(proximity_map)@),
        forall|i: int|
            0 <= i < old(proximity_map)@.len() && i != old(proximity_map).idx(
                pivot.x + dx,
                pivot.y + dy,
            ) ==> final(proximity_map)@[i] == old(proximity_map)@[i],
        ({
            let ci = old(proximity_map).idx(pivot.x + dx, pivot.y + dy);
            old(proximity_map).valid_cell(pivot.x + dx, pivot.y + dy) ==> {
                let before = old(proximity_map)@[ci];
                let after = final(proximity_map)@[ci];
                match before {
                    TargetProximity::NotComputed => after == TargetProximity::Computed(
                        (vp + step_cost(dx as int, dy as int)) as u64,
                    ),
                    TargetProximity::Computed(d) => after == TargetProximity::Computed(
                        if d < vp + step_cost(dx as int, dy as int) {
                            d
                        } else {
                            (vp + step_cost(dx as int, dy as int)) as u64
                        },
                    ),
                    TargetProximity::Unreachable => after == before,
                }
            }
        }),
        !old(proximity_map).valid_cell(pivot.x + dx, pivot.y + dy) ==> final(proximity_map)@
            == old(proximity_map)@,
        forall|i: int|
            0 <= i < old(proximity_map)@.len() && !((#[trigger] old(proximity_map)@[i])
                is NotComputed) ==> !(final(proximity_map)@[i] is NotComputed),
        forall|i: int|
            0 <= i < old(proximity_map)@.len() && (#[trigger] old(proximity_map)@[i]) is Computed
                ==> final(proximity_map)@[i] is Computed,
        old(proximity_map).valid_cell(pivot.x + dx, pivot.y + dy) ==> !(final(proximity_map)@[
            old(proximity_map).idx(pivot.x + dx, pivot.y + dy)] is NotComputed),
        forall|v: IVec2| old(open_list)@.contains(v) ==> final(open_list)@.contains(v),
        forall|cx: int, cy: int|
            old(proximity_map).valid_cell(cx, cy) && (#[trigger] old(proximity_map)@[
                old(proximity_map).idx(cx, cy)]) is NotComputed && final(proximity_map)@[
                old(proximity_map).idx(cx, cy)] is Computed ==> final(open_list)@.contains(
                IVec2 { x: cx as i64, y: cy as i64 },
            ),
{
    proof {
        proximity_map.lemma_counts_bounded();
    }
    let current = IVec2 { x: pivot.x + dx, y: pivot.y + dy };
    let delta: u64 = if dx == 0 || dy == 0 {
        AXIS_COST
    } else {
        DIAG_COST
    };
    let value_at_cell = proximity_map.get_value_at_cell(current);
    match value_at_cell {
        None | Some(TargetProximity::Unreachable) => {},
        Some(TargetProximity::NotComputed) => {
            proof {
                lemma_count_nc_update(
                    proximity_map@,
                    proximity_map.idx(current.x as int, current.y as int),
                    TargetProximity::Computed((vp + delta) as u64),
                );
            }
            let _ = proximity_map.set_value(current, TargetProximity::Computed(vp + delta));
            open_list.push_back(current);
        },
        Some(TargetProximity::Computed(value)) => {
            let new_distance = vp + delta;
            let distance = if value < new_distance {
                value
            } else {
                new_distance
            };
            proof {
                lemma_count_nc_update(
                    proximity_map@,
                    proximity_map.idx(current.x as int, current.y as int),
                    TargetProximity::Computed(distance),
                );
            }
            let _ = proximity_map.set_value(current, TargetProximity::Computed(distance));
        },
    }
    proof {
        let gold = *old(proximity_map);
        let nx = pivot.x as int + dx as int;
        let ny = pivot.y as int + dy as int;
        assert forall|cx: int, cy: int| proximity_map.valid_cell(cx, cy) implies {
            let v = #[trigger] proximity_map@[proximity_map.idx(cx, cy)];
            &&& (v is Unreachable <==> blocked_at(*ob, cx, cy))
            &&& (!blocked_at(*ob, cx, cy) && target_at(*tg, cx, cy) ==> v
                == TargetProximity::Computed(0u64))
            &&& ((!blocked_at(*ob, cx, cy) && !target_at(*tg, cx, cy) && v is Computed)
                ==> AXIS_COST <= v->Computed_0)
            &&& (v is Computed ==> v->Computed_0 <= bound)
        } by {
            let w = gold@[gold.idx(cx, cy)];
            assert(gold.valid_cell(cx, cy));
            if gold.valid_cell(nx, ny) {
                gold.lemma_idx_injective(cx, cy, nx, ny);
            }
        }
        assert(char_inv(*proximity_map, *ob, *tg));
        assert(values_bounded(*proximity_map, bound));
        assert forall|v: IVec2| old(open_list)@.contains(v) implies open_list@.contains(v) by {
            if open_list@ != old(open_list)@ {
                lemma_contains_push(old(open_list)@, v, current);
            }
        }
        assert forall|cx: int, cy: int|
            gold.valid_cell(cx, cy) && (#[trigger] gold@[gold.idx(cx, cy)]) is NotComputed
                && proximity_map@[gold.idx(cx, cy)] is Computed implies open_list@.contains(
            IVec2 { x: cx as i64, y: cy as i64 }) by {
            let c = IVec2 { x: cx as i64, y: cy as i64 };
            if !gold.valid_cell(nx, ny) {
                assert(proximity_map@ == gold@);
            } else {
                gold.lemma_idx_injective(cx, cy, nx, ny);
                assert(cx == nx && cy == ny);
                assert(open_list@ == old(open_list)@.push(current));
                assert(c == current);
                assert(open_list@[old(open_list)@.len() as int] == c);
            }
        }
        // the pivot's own value is untouched (the relaxed cell differs from it)
        let pvx = pivot.x as int;
        let pvy = pivot.y as int;
        if gold.valid_cell(nx, ny) {
            gold.lemma_idx_injective(pvx, pvy, nx, ny);
        }
        assert(proximity_map@[gold.idx(pvx, pvy)] == TargetProximity::Computed(vp));
        // achievability: an unchanged cell keeps its witness walk, and the
        // relaxed cell extends the pivot's walk by one step
        assert forall|cx: int, cy: int| proximity_map.valid_cell(cx, cy)
            && (#[trigger] proximity_map@[proximity_map.idx(cx, cy)]) is Computed
            implies exists|pw: Seq<IVec2>| path_ok(*ob, *tg, pw)
                && pw.last() == (IVec2 { x: cx as i64, y: cy as i64 })
                && path_cost(pw) == proximity_map@[proximity_map.idx(cx, cy)]->Computed_0 by {
            let ci = gold.idx(cx, cy);
            assert(gold.valid_cell(cx, cy));
            if gold.valid_cell(nx, ny) && ci == gold.idx(nx, ny)
                && proximity_map@[ci] != gold@[ci] {
                gold.lemma_idx_injective(cx, cy, nx, ny);
                assert(cx == nx && cy == ny);
                let c0 = IVec2 { x: pvx as i64, y: pvy as i64 };
                assert(gold@[gold.idx(pvx, pvy)] is Computed);
                let pw0 = choose|pw0: Seq<IVec2>| path_ok(*ob, *tg, pw0) && pw0.last() == c0
                    && path_cost(pw0) == gold@[gold.idx(pvx, pvy)]->Computed_0;
                assert(path_cost(pw0) == vp);
                let cc = IVec2 { x: cx as i64, y: cy as i64 };
                assert(!(gold@[ci] is Unreachable));
                assert(!blocked_at(*ob, cx, cy));
                assert(ob.valid_cell(cx, cy));
                assert(is_offset(cc.x - pw0.last().x, cc.y - pw0.last().y));
                lemma_path_extend(*ob, *tg, pw0, cc);
                assert(step_cost(cc.x - pw0.last().x, cc.y - pw0.last().y) == delta);
                assert(path_ok(*ob, *tg, pw0.push(cc)) && pw0.push(cc).last() == cc
                    && path_cost(pw0.push(cc)) == vp + delta);
                assert(proximity_map@[ci]->Computed_0 == vp + delta);
            } else {
                assert(proximity_map@[ci] == gold@[ci]);
                assert(gold@[gold.idx(cx, cy)] is Computed);
            }
        }
    }
}

/// A sequence keeps its members when a value is pushed at the back.
proof fn lemma_contains_push(s: Seq<IVec2>, x: IVec2, y: IVec2)
    requires
        s.contains(x),
    ensures
        s.push(y).contains(x),
{
    let k = choose|k: int| 0 <= k < s.len() && s[k] == x;
    assert(s.push(y)[k] == x);
}

/// Processes one popped wavefront cell: relaxes all 8 neighbors in a fixed
/// order.  On return the pivot's whole neighborhood has been washed over,
/// cells only ever gain computed values, and every newly computed cell has
/// joined the queue, which grows only at its back.
#[verifier::rlimit(100)]
#[verifier::spinoff_prover]
fn process_pivot(
    proximity_map: &mut GridMap<TargetProximity>,
    open_list: &mut VecDeque<IVec2>,
    ob: &GridMap<BlockedStatus>,
    tg: &GridMap<TargetStatus>,
    pivot: IVec2,
    vp: u64,
    Ghost(bound): Ghost<int>,
)
    requires
        old(proximity_map).inv(),
        ob.inv(),
        tg.inv(),
        old(proximity_map).same_geometry(*ob),
        old(proximity_map).same_geometry(*tg),
        old(proximity_map).valid_cell(pivot.x as int, pivot.y as int),
        char_inv(*old(proximity_map), *ob, *tg),
        values_bounded(*old(proximity_map), bound),
        vp + DIAG_COST <= bound,
        bound <= DIST_BOUND,
        old(proximity_map)@[old(proximity_map).idx(pivot.x as int, pivot.y as int)]
            == TargetProximity::Computed(vp),
        distances_achievable(*old(proximity_map), *ob, *tg),
    ensures
        final(proximity_map).inv(),
        final(proximity_map).same_geometry(*old(proximity_map)),
        final(proximity_map)@.len() == old(proximity_map)@.len(),
        char_inv(*final(proximity_map), *ob, *tg),
        values_bounded(*final(proximity_map), bound),
        distances_achievable(*final(proximity_map), *ob, *tg),
        final(open_list)@.len() + count_nc(final(proximity_map)@) == old(open_list)@.len()
            + count_nc(old(proximity_map)@),
        count_nc(final(proximity_map)@) <= count_nc(old(proximity_map)@),
        // the queue grows only at its back
        old(open_list)@.len() <= final(open_list)@.len(),
        forall|k: int| 0 <= k < old(open_list)@.len() ==> final(open_list)@[k]
            == old(open_list)@[k],
        forall|k: int| old(open_list)@.len() <= k < final(open_list)@.len()
            ==> old(proximity_map).valid_cell(
            (#[trigger] final(open_list)@[k]).x as int,
            final(open_list)@[k].y as int,
        ),
        // cells only gain computed values
        forall|i: int| 0 <= i < old(proximity_map)@.len()
            && !((#[trigger] old(proximity_map)@[i]) is NotComputed)
            ==> !(final(proximity_map)@[i] is NotComputed) && (old(proximity_map)@[i] is Computed
            ==> final(proximity_map)@[i] is Computed),
        // newly computed cells are in the queue
        forall|cx: int, cy: int| old(proximity_map).valid_cell(cx, cy)
            && (#[trigger] old(proximity_map)@[old(proximity_map).idx(cx, cy)]) is NotComputed
            && final(proximity_map)@[old(proximity_map).idx(cx, cy)] is Computed
            ==> final(open_list)@.contains(IVec2 { x: cx as i64, y: cy as i64 }),
        neighbors_done(*final(proximity_map), pivot.x as int, pivot.y as int),
{
    proof {
        proximity_map.lemma_counts_bounded();
    }
    let ghost m0 = *proximity_map;
    let ghost q0 = open_list@;
    relax_neighbor(proximity_map, open_list, ob, tg, pivot, -1, -1, vp, Ghost(bound));
    let ghost m1 = *proximity_map;
    let ghost q1 = open_list@;
    relax_neighbor(proximity_map, open_list, ob, tg, pivot, -1, 0, vp, Ghost(bound));
    let ghost m2 = *proximity_map;
    let ghost q2 = open_list@;
    relax_neighbor(proximity_map, open_list, ob, tg, pivot, -1, 1, vp, Ghost(bound));
    let ghost m3 = *proximity_map;
    let ghost q3 = open_list@;
    relax_neighbor(proximity_map, open_list, ob, tg, pivot, 0, -1, vp, Ghost(bound));
    let ghost m4 = *proximity_map;
    let ghost q4 = open_list@;
    relax_neighbor(proximity_map, open_list, ob, tg, pivot, 0, 1, vp, Ghost(bound));
    let ghost m5 = *proximity_map;
    let ghost q5 = open_list@;
    relax_neighbor(proximity_map, open_list, ob, tg, pivot, 1, -1, vp, Ghost(bound));
    let ghost m6 = *proximity_map;
    let ghost q6 = open_list@;
    relax_neighbor(proximity_map, open_list, ob, tg, pivot, 1, 0, vp, Ghost(bound));
    let ghost m7 = *proximity_map;
    let ghost q7 = open_list@;
    relax_neighbor(proximity_map, open_list, ob, tg, pivot, 1, 1, vp, Ghost(bound));
    proof {
        let px = pivot.x as int;
        let py = pivot.y as int;
        assert forall|dx: int, dy: int| is_offset(dx, dy) && proximity_map.valid_cell(
            px + dx,
            py + dy,
        ) implies !((#[trigger] proximity_map@[proximity_map.idx(px + dx, py + dy)])
            is NotComputed) by {
            assert(dx == -1 || dx == 0 || dx == 1);
            assert(dy == -1 || dy == 0 || dy == 1);
        }
        assert forall|cx: int, cy: int|
            m0.valid_cell(cx, cy) && (#[trigger] m0@[m0.idx(cx, cy)]) is NotComputed
                && proximity_map@[m0.idx(cx, cy)] is Computed implies open_list@.contains(
            IVec2 { x: cx as i64, y: cy as i64 },
        ) by {
            let c = IVec2 { x: cx as i64, y: cy as i64 };
            let ci = m0.idx(cx, cy);
            if m1@[ci] is Computed {
                assert(q1.contains(c));
                assert(q2.contains(c));
                assert(q3.contains(c));
                assert(q4.contains(c));
                assert(q5.contains(c));
                assert(q6.contains(c));
                assert(q7.contains(c));
            } else if m2@[ci] is Computed {
                assert(m1@[m1.idx(cx, cy)] is NotComputed);
                assert(q2.contains(c));
                assert(q3.contains(c));
                assert(q4.contains(c));
                assert(q5.contains(c));
                assert(q6.contains(c));
                assert(q7.contains(c));
            } else if m3@[ci] is Computed {
                assert(m2@[m2.idx(cx, cy)] is NotComputed);
                assert(q3.contains(c));
                assert(q4.contains(c));
                assert(q5.contains(c));
                assert(q6.contains(c));
                assert(q7.contains(c));
            } else if m4@[ci] is Computed {
                assert(m3@[m3.idx(cx, cy)] is NotComputed);
                assert(q4.contains(c));
                assert(q5.contains(c));
                assert(q6.contains(c));
                assert(q7.contains(c));
            } else if m5@[ci] is Computed {
                assert(m4@[m4.idx(cx, cy)] is NotComputed);
                assert(q5.contains(c));
                assert(q6.contains(c));
                assert(q7.contains(c));
            } else if m6@[ci] is Computed {
                assert(m5@[m5.idx(cx, cy)] is NotComputed);
                assert(q6.contains(c));
                assert(q7.contains(c));
            } else if m7@[ci] is Computed {
                assert(m6@[m6.idx(cx, cy)] is NotComputed);
                assert(q7.contains(c));
            } else {
                assert(m7@[m7.idx(cx, cy)] is NotComputed);
            }
            assert(open_list@.contains(c));
        }
    }
}

/// Seeds the proximity map from the blocked and target maps: blocked cells
/// become `Unreachable` (blocked dominates target), unblocked target cells
/// become `Computed(0)` and join the work queue, all others `NotComputed`.
#[verifier::loop_isolation(false)]
#[verifier::rlimit(60)]
fn seed_proximity(
    proximity_map: &mut GridMap<TargetProximity>,
    open_list: &mut VecDeque<IVec2>,
    obstacles_map: &GridMap<BlockedStatus>,
    target_map: &GridMap<TargetStatus>,
)
    requires
        old(proximity_map).inv(),
        obstacles_map.inv(),
        target_map.inv(),
        old(proximity_map).same_geometry(*obstacles_map),
        old(proximity_map).same_geometry(*target_map),
        old(open_list)@.len() == 0,
    ensures
        final(proximity_map).inv(),
        final(proximity_map).same_geometry(*old(proximity_map)),
        final(proximity_map)@.len() == old(proximity_map)@.len(),
        forall|cx: int, cy: int| final(proximity_map).valid_cell(cx, cy)
            ==> #[trigger] final(proximity_map)@[final(proximity_map).idx(cx, cy)] == seed_value(
            blocked_at(*obstacles_map, cx, cy),
            target_at(*target_map, cx, cy),
        ),
        forall|k: int| 0 <= k < final(open_list)@.len() ==> final(proximity_map).valid_cell(
            (#[trigger] final(open_list)@[k]).x as int,
            final(open_list)@[k].y as int,
        ),
        final(open_list)@.len() + count_nc(final(proximity_map)@) <= final(proximity_map)@.len(),
        forall|cx: int, cy: int| final(proximity_map).valid_cell(cx, cy)
            && (#[trigger] final(proximity_map)@[final(proximity_map).idx(cx, cy)]) is Computed
            ==> final(open_list)@.contains(IVec2 { x: cx as i64, y: cy as i64 }),
        distances_achievable(*final(proximity_map), *obstacles_map, *target_map),
{
    proof {
        proximity_map.lemma_counts_bounded();
    }
    proximity_map.reset(TargetProximity::NotComputed);
    proof {
        lemma_count_nc_all(proximity_map@);
    }
    let columns = proximity_map.columns;
    let rows = proximity_map.rows;
    let mut x: usize = 0;
    while x < columns
        invariant
            0 <= x <= columns,
            proximity_map.inv(),
            proximity_map.same_geometry(*old(proximity_map)),
            proximity_map@.len() == old(proximity_map)@.len(),
            forall|cx: int, cy: int|
                proximity_map.valid_cell(cx, cy) ==> #[trigger] proximity_map@[proximity_map.idx(
                    cx,
                    cy,
                )] == (if cx < x {
                    seed_value(
                        blocked_at(*obstacles_map, cx, cy),
                        target_at(*target_map, cx, cy),
                    )
                } else {
                    TargetProximity::NotComputed
                }),
            forall|k: int| 0 <= k < open_list@.len() ==> proximity_map.valid_cell(
                (#[trigger] open_list@[k]).x as int,
                open_list@[k].y as int,
            ),
            open_list@.len() + count_nc(proximity_map@) <= proximity_map@.len(),
            forall|cx: int, cy: int|
                proximity_map.valid_cell(cx, cy)
                    && (#[trigger] proximity_map@[proximity_map.idx(cx, cy)]) is Computed
                    ==> open_list@.contains(IVec2 { x: cx as i64, y: cy as i64 }),
        decreases columns - x,
    {
        let mut y: usize = 0;
        while y < rows
            invariant
                0 <= x < columns,
                0 <= y <= rows,
                proximity_map.inv(),
                proximity_map.same_geometry(*old(proximity_map)),
                proximity_map@.len() == old(proximity_map)@.len(),
                forall|cx: int, cy: int|
                    proximity_map.valid_cell(cx, cy) ==> #[trigger] proximity_map@[
                        proximity_map.idx(cx, cy)] == (if cx < x || (cx == x && cy < y) {
                        seed_value(
                            blocked_at(*obstacles_map, cx, cy),
                            target_at(*target_map, cx, cy),
                        )
                    } else {
                        TargetProximity::NotComputed
                    }),
                forall|k: int| 0 <= k < open_list@.len() ==> proximity_map.valid_cell(
                    (#[trigger] open_list@[k]).x as int,
                    open_list@[k].y as int,
                ),
                open_list@.len() + count_nc(proximity_map@) <= proximity_map@.len(),
                forall|cx: int, cy: int|
                    proximity_map.valid_cell(cx, cy)
                        && (#[trigger] proximity_map@[proximity_map.idx(cx, cy)]) is Computed
                        ==> open_list@.contains(IVec2 { x: cx as i64, y: cy as i64 }),
            decreases rows - y,
        {
            let pos = IVec2 { x: x as i64, y: y as i64 };
            let blocked_v = obstacles_map.get_value_at_cell(pos);
            let target_v = target_map.get_value_at_cell(pos);
            let blocked = match blocked_v {
                Some(BlockedStatus::Blocked) => true,
                _ => false,
            };
            let target = match target_v {
                Some(TargetStatus::IsTarget) => true,
                _ => false,
            };
            let proximity = if blocked {
                TargetProximity::Unreachable
            } else if target {
                TargetProximity::Computed(0)
            } else {
                TargetProximity::NotComputed
            };
            let is_seed = match proximity {
                TargetProximity::Computed(_) => true,
                _ => false,
            };
            let ghost prev_map = *proximity_map;
            let ghost prev_q = open_list@;
            if is_seed {
                open_list.push_back(pos);
            }
            proof {
                lemma_count_nc_update(
                    proximity_map@,
                    proximity_map.idx(x as int, y as int),
                    proximity,
                );
            }
            let _ = proximity_map.set_value(pos, proximity);
            proof {
                assert(proximity == seed_value(
                    blocked_at(*obstacles_map, x as int, y as int),
                    target_at(*target_map, x as int, y as int),
                ));
                assert forall|cx: int, cy: int| proximity_map.valid_cell(cx, cy) implies
                    #[trigger] proximity_map@[proximity_map.idx(cx, cy)] == (
                    if cx < x || (cx == x && cy < y + 1) {
                        seed_value(
                            blocked_at(*obstacles_map, cx, cy),
                            target_at(*target_map, cx, cy),
                        )
                    } else {
                        TargetProximity::NotComputed
                    }) by {
                    let w = prev_map@[prev_map.idx(cx, cy)];
                    prev_map.lemma_idx_injective(cx, cy, x as int, y as int);
                }
                assert forall|cx: int, cy: int|
                    proximity_map.valid_cell(cx, cy)
                        && (#[trigger] proximity_map@[proximity_map.idx(cx, cy)]) is Computed
                        implies open_list@.contains(IVec2 { x: cx as i64, y: cy as i64 }) by {
                    let c = IVec2 { x: cx as i64, y: cy as i64 };
                    let w = prev_map@[prev_map.idx(cx, cy)];
                    prev_map.lemma_idx_injective(cx, cy, x as int, y as int);
                    if cx == x && cy == y {
                        assert(open_list@[prev_q.len() as int] == pos);
                        assert(c == pos);
                    } else {
                        assert(prev_q.contains(c));
                        if is_seed {
                            lemma_contains_push(prev_q, c, pos);
                        }
                    }
                }
            }
            y = y + 1;
        }
        x = x + 1;
    }
    proof {
        // each seeded distance is zero, achieved by the one-cell walk on its
        // own (unblocked) target cell
        assert forall|cx: int, cy: int| proximity_map.valid_cell(cx, cy)
            && (#[trigger] proximity_map@[proximity_map.idx(cx, cy)]) is Computed
            implies exists|pw: Seq<IVec2>| path_ok(*obstacles_map, *target_map, pw)
                && pw.last() == (IVec2 { x: cx as i64, y: cy as i64 })
                && path_cost(pw) == proximity_map@[proximity_map.idx(cx, cy)]->Computed_0 by {
            let c = IVec2 { x: cx as i64, y: cy as i64 };
            assert(proximity_map@[proximity_map.idx(cx, cy)] == seed_value(
                blocked_at(*obstacles_map, cx, cy),
                target_at(*target_map, cx, cy),
            ));
            lemma_path_single(*obstacles_map, *target_map, c);
            assert(path_ok(*obstacles_map, *target_map, seq![c]) && seq![c].last() == c
                && path_cost(seq![c]) == 0);
        }
    }
}

/// Multi-source wavefront propagation: resets the proximity map, seeds it
/// from the blocked and target maps (blocked dominating target), then
/// relaxes distances outward over the 8-connected grid with a FIFO work
/// queue.  On return the map is characterized by `char_inv` (blocked cells
/// `Unreachable`, unblocked target cells at distance zero, other computed
/// cells at least one axis step away), every computed distance is at most
/// `DIST_BOUND`, and the wavefront is exhausted: no computed cell has a
/// `NotComputed` neighbor.
#[verifier::loop_isolation(false)]
#[verifier::rlimit(100)]
pub fn compute_proximity_map(
    proximity_map: &mut GridMap<TargetProximity>,
    obstacles_map: &GridMap<BlockedStatus>,
    target_map: &GridMap<TargetStatus>,
)
    requires
        old(proximity_map).inv(),
        obstacles_map.inv(),
        target_map.inv(),
        old(proximity_map).same_geometry(*obstacles_map),
        old(proximity_map).same_geometry(*target_map),
    ensures
        final(proximity_map).inv(),
        final(proximity_map).same_geometry(*old(proximity_map)),
        final(proximity_map)@.len() == old(proximity_map)@.len(),
        char_inv(*final(proximity_map), *obstacles_map, *target_map),
        values_bounded(*final(proximity_map), DIST_BOUND as int),
        forall|cx: int, cy: int|
            final(proximity_map).valid_cell(cx, cy)
                && (#[trigger] final(proximity_map)@[final(proximity_map).idx(cx, cy)])
                is Computed ==> neighbors_done(*final(proximity_map), cx, cy),
        distances_achievable(*final(proximity_map), *obstacles_map, *target_map),
{
    let ghost n_cells = proximity_map@.len() as int;
    proof {
        proximity_map.lemma_counts_bounded();
    }
    let mut open_list: VecDeque<IVec2> = VecDeque::new();
    seed_proximity(proximity_map, &mut open_list, obstacles_map, target_map);
    proof {
        assert forall|cx: int, cy: int| proximity_map.valid_cell(cx, cy) implies {
            let v = #[trigger] proximity_map@[proximity_map.idx(cx, cy)];
            &&& (v is Unreachable <==> blocked_at(*obstacles_map, cx, cy))
            &&& (!blocked_at(*obstacles_map, cx, cy) && target_at(*target_map, cx, cy) ==> v
                == TargetProximity::Computed(0u64))
            &&& ((!blocked_at(*obstacles_map, cx, cy) && !target_at(*target_map, cx, cy)
                && v is Computed) ==> AXIS_COST <= v->Computed_0)
            &&& (v is Computed ==> v->Computed_0 == 0)
        } by {
            assert(proximity_map@[proximity_map.idx(cx, cy)] == seed_value(
                blocked_at(*obstacles_map, cx, cy),
                target_at(*target_map, cx, cy),
            ));
        }
        assert(char_inv(*proximity_map, *obstacles_map, *target_map));
    }
    let ghost mut pops: int = 0;
    while open_list.len() > 0
        invariant
            proximity_map.inv(),
            proximity_map.same_geometry(*old(proximity_map)),
            proximity_map@.len() == old(proximity_map)@.len(),
            char_inv(*proximity_map, *obstacles_map, *target_map),
            forall|k: int| 0 <= k < open_list@.len() ==> proximity_map.valid_cell(
                (#[trigger] open_list@[k]).x as int,
                open_list@[k].y as int,
            ),
            0 <= pops,
            pops + open_list@.len() + count_nc(proximity_map@) <= 2 * n_cells,
            values_bounded(*proximity_map, (DIAG_COST as int) * (pops + n_cells)),
            distances_achievable(*proximity_map, *obstacles_map, *target_map),
            forall|cx: int, cy: int|
                proximity_map.valid_cell(cx, cy)
                    && (#[trigger] proximity_map@[proximity_map.idx(cx, cy)]) is Computed ==>
                    open_list@.contains(IVec2 { x: cx as i64, y: cy as i64 }) || neighbors_done(
                    *proximity_map,
                    cx,
                    cy,
                ),
        decreases count_nc(proximity_map@), open_list@.len(),
    {
        let ghost queue_before = open_list@;
        let ghost map_before = *proximity_map;
        let pivot_pos = open_list.pop_front().unwrap();
        let ghost queue_pp = open_list@;
        proof {
            pops = pops + 1;
            assert((DIAG_COST as int) * (pops + n_cells) <= DIST_BOUND) by (nonlinear_arith)
                requires
                    pops + n_cells <= 3 * n_cells,
                    0 <= n_cells <= CELLS_LIMIT as int,
            {}
            assert((DIAG_COST as int) * (pops - 1 + n_cells) <= (DIAG_COST as int) * (pops
                + n_cells)) by (nonlinear_arith)
                requires
                    pops >= 1,
                    n_cells >= 0,
            {}
        }
        let value_pivot = proximity_map.get_value_at_cell(pivot_pos);
        if let Some(TargetProximity::Computed(vp)) = value_pivot {
            let ghost bound = (DIAG_COST as int) * (pops + n_cells);
            proof {
                assert(vp + DIAG_COST <= bound) by (nonlinear_arith)
                    requires
                        vp <= (DIAG_COST as int) * (pops - 1 + n_cells),
                        bound == (DIAG_COST as int) * (pops + n_cells),
                        pops >= 1,
                        n_cells >= 0,
                {}
            }
            process_pivot(
                proximity_map,
                &mut open_list,
                obstacles_map,
                target_map,
                pivot_pos,
                vp,
                Ghost(bound),
            );
            proof {
                let g = *proximity_map;
                assert forall|cx: int, cy: int|
                    g.valid_cell(cx, cy) && (#[trigger] g@[g.idx(cx, cy)]) is Computed implies
                    open_list@.contains(IVec2 { x: cx as i64, y: cy as i64 }) || neighbors_done(
                    g,
                    cx,
                    cy,
                ) by {
                    let c = IVec2 { x: cx as i64, y: cy as i64 };
                    if map_before@[map_before.idx(cx, cy)] is Computed {
                        if queue_before.contains(c) {
                            let k = choose|k: int| 0 <= k < queue_before.len()
                                && queue_before[k] == c;
                            if k == 0 {
                                assert(c == pivot_pos);
                                assert(neighbors_done(g, cx, cy));
                            } else {
                                assert(queue_pp[k - 1] == c);
                                assert(open_list@[k - 1] == c);
                                assert(open_list@.contains(c));
                            }
                        } else {
                            assert(neighbors_done(map_before, cx, cy));
                            assert forall|ddx: int, ddy: int|
                                is_offset(ddx, ddy) && g.valid_cell(cx + ddx, cy + ddy) implies
                                !((#[trigger] g@[g.idx(cx + ddx, cy + ddy)]) is NotComputed) by {
                                assert(!(map_before@[map_before.idx(cx + ddx, cy + ddy)]
                                    is NotComputed));
                            }
                        }
                    } else {
                        assert(map_before@[map_before.idx(cx, cy)] is NotComputed);
                        assert(open_list@.contains(c));
                    }
                }
            }
        } else {
            proof {
                let g = *proximity_map;
                assert forall|cx: int, cy: int|
                    g.valid_cell(cx, cy) && (#[trigger] g@[g.idx(cx, cy)]) is Computed implies
                    open_list@.contains(IVec2 { x: cx as i64, y: cy as i64 }) || neighbors_done(
                    g,
                    cx,
                    cy,
                ) by {
                    let c = IVec2 { x: cx as i64, y: cy as i64 };
                    if queue_before.contains(c) {
                        let k = choose|k: int| 0 <= k < queue_before.len()
                            && queue_before[k] == c;
                        if k == 0 {
                            assert(c == pivot_pos);
                            assert(g@[g.idx(cx, cy)] == value_pivot->Some_0);
                            assert(false);
                        } else {
                            assert(queue_pp[k - 1] == c);
                            assert(open_list@[k - 1] == c);
                            assert(open_list@.contains(c));
                        }
                    }
                }
            }
        }
    }
    proof {
        assert((DIAG_COST as int) * (pops + n_cells) <= DIST_BOUND) by (nonlinear_arith)
            requires
                pops + n_cells <= 3 * n_cells,
                0 <= n_cells <= CELLS_LIMIT as int,
                pops >= 0,
        {}
        assert(values_bounded(*proximity_map, DIST_BOUND as int));
    }
}

} // verus!
