//! Point-in-shape tests and distance queries against shapes: an exact
//! squared-distance test for circles, the ray-casting crossing rule for
//! polygons, and fixed-point closest-point-on-segment distances.

use vstd::prelude::*;
use crate::geom::{
    Vec2Fix, COORD_LIMIT, bounded, tdiv, fsqrt, isqrt, mul_i128, div_trunc_i128,
    lemma_square_bound, lemma_fsqrt_le, lemma_tdiv_bound,
};
use crate::components::Shape;

verus! {

/// Stand-in for an infinite distance in the polygon edge scans; larger than
/// any distance between bounded points.
pub const DIST_INF: i64 = 0x7fff_ffff_ffff_ffff;

/// The point lies within the circle (squared-distance test, exact).
pub open spec fn in_circle_spec(center: Vec2Fix, radius: int, p: Vec2Fix) -> bool {
    (p.x - center.x) * (p.x - center.x) + (p.y - center.y) * (p.y - center.y) <= radius * radius
}

/// One step of the ray-casting crossing rule: the horizontal ray from `p`
/// rightward crosses the edge from `pi` to `pj`.  The comparison is the
/// exact cross-multiplied form of `p.x < pi.x + (pj.x - pi.x) * (p.y - pi.y)
/// / (pj.y - pi.y)`.
pub open spec fn edge_crosses_spec(pi: Vec2Fix, pj: Vec2Fix, p: Vec2Fix) -> bool {
    &&& (pi.y > p.y) != (pj.y > p.y)
    &&& {
        let dy = pj.y - pi.y;
        let lhs = (p.x - pi.x) * dy;
        let rhs = (pj.x - pi.x) * (p.y - pi.y);
        if dy > 0 {
            lhs < rhs
        } else {
            lhs > rhs
        }
    }
}

/// Index of the vertex preceding `i` in the ring.
pub open spec fn prev_vertex(n: int, i: int) -> int {
    if i == 0 {
        n - 1
    } else {
        i - 1
    }
}

/// Number of ray crossings among the first `k` edges (edge `i` runs from
/// vertex `i` back to its predecessor).
pub open spec fn poly_crossings(pts: Seq<Vec2Fix>, p: Vec2Fix, k: int) -> nat
    decreases k,
{
    if k <= 0 {
        0
    } else {
        poly_crossings(pts, p, k - 1) + if edge_crosses_spec(
            pts[k - 1],
            pts[prev_vertex(pts.len() as int, k - 1)],
            p,
        ) {
            1nat
        } else {
            0nat
        }
    }
}

/// The crossing rule: the point is inside when the ray crosses the ring an
/// odd number of times.
pub open spec fn in_polygon_spec(pts: Seq<Vec2Fix>, p: Vec2Fix) -> bool {
    poly_crossings(pts, p, pts.len() as int) % 2 == 1
}

/// The point relative to the shape's position (polygon vertices live in
/// model space).
pub open spec fn rel_point_spec(shape_position: Vec2Fix, point: Vec2Fix) -> Vec2Fix {
    Vec2Fix { x: (point.x - shape_position.x) as i64, y: (point.y - shape_position.y) as i64 }
}

/// The point lies within the shape placed at `shape_position`.
pub open spec fn point_in_shape_spec(shape: Shape, shape_position: Vec2Fix, point: Vec2Fix) -> bool {
    match shape {
        Shape::Circle(radius) => in_circle_spec(shape_position, radius as int, point),
        Shape::Polygon(pts) => in_polygon_spec(pts@, rel_point_spec(shape_position, point)),
    }
}

/// The point lies within the shape: a circle by the squared-distance test, a
/// polygon by the ray-casting crossing rule.
pub fn point_in_shape(shape: &Shape, shape_position: Vec2Fix, point: Vec2Fix) -> (b: bool)
    requires
        shape.wf(),
        bounded(shape_position, COORD_LIMIT as int),
        bounded(point, 2 * COORD_LIMIT as int),
    ensures
        b == point_in_shape_spec(*shape, shape_position, point),
{
    match shape {
        Shape::Circle(radius) => {
            let dx = (point.x - shape_position.x) as i128;
            let dy = (point.y - shape_position.y) as i128;
            let r = *radius as i128;
            let d2 = mul_i128(dx, dx) + mul_i128(dy, dy);
            d2 <= mul_i128(r, r)
        },
        Shape::Polygon(polygon_points) => {
            let p = Vec2Fix {
                x: point.x - shape_position.x,
                y: point.y - shape_position.y,
            };
            let n = polygon_points.len();
            let mut inside = false;
            let mut j: usize = n - 1;
            let mut i: usize = 0;
            while i < n
                invariant
                    0 <= i <= n,
                    n == polygon_points@.len(),
                    3 <= n <= 4096,
                    forall|k: int| 0 <= k < n ==> bounded(#[trigger] polygon_points@[k], COORD_LIMIT as int),
                    bounded(p, 3 * COORD_LIMIT as int),
                    j as int == prev_vertex(n as int, i as int),
                    inside == (poly_crossings(polygon_points@, p, i as int) % 2 == 1),
                decreases n - i,
            {
                let pi = polygon_points[i];
                let pj = polygon_points[j];
                let straddles = (pi.y > p.y) != (pj.y > p.y);
                if straddles {
                    let dy = (pj.y as i128) - (pi.y as i128);
                    let lhs = mul_i128((p.x as i128) - (pi.x as i128), dy);
                    let rhs = mul_i128(
                        (pj.x as i128) - (pi.x as i128),
                        (p.y as i128) - (pi.y as i128),
                    );
                    let crossed = if dy > 0 { lhs < rhs } else { lhs > rhs };
                    if crossed {
                        inside = !inside;
                    }
                }
                j = i;
                i = i + 1;
            }
            inside
        },
    }
}

/// The straddle bit of a vertex: its y coordinate lies strictly above the
/// query point's.
pub open spec fn above_spec(pts: Seq<Vec2Fix>, p: Vec2Fix, i: int) -> bool {
    pts[i].y > p.y
}

/// Number of edges among the first `k` whose endpoints straddle the query
/// height.
pub open spec fn straddle_count(pts: Seq<Vec2Fix>, p: Vec2Fix, k: int) -> nat
    decreases k,
{
    if k <= 0 {
        0
    } else {
        straddle_count(pts, p, k - 1) + if above_spec(pts, p, k - 1) != above_spec(
            pts,
            p,
            prev_vertex(pts.len() as int, k - 1),
        ) {
            1nat
        } else {
            0nat
        }
    }
}

/// An odd number of crossings yields at least one crossing edge.
pub proof fn lemma_crossing_exists(pts: Seq<Vec2Fix>, p: Vec2Fix, k: int)
    requires
        poly_crossings(pts, p, k) > 0,
    ensures
        exists|i: int| 0 <= i < k && edge_crosses_spec(
            pts[i],
            pts[prev_vertex(pts.len() as int, i)],
            p,
        ),
    decreases k,
{
    if k > 0 {
        if edge_crosses_spec(pts[k - 1], pts[prev_vertex(pts.len() as int, k - 1)], p) {
            assert(0 <= k - 1 < k && edge_crosses_spec(
                pts[k - 1],
                pts[prev_vertex(pts.len() as int, k - 1)],
                p,
            ));
        } else {
            lemma_crossing_exists(pts, p, k - 1);
        }
    }
}

/// Every vertex among the first `k` lies within the polygon's extents.
pub proof fn lemma_poly_extent(pts: Seq<Vec2Fix>, k: int, i: int)
    requires
        0 <= i < k || (k <= 1 && i == 0),
    ensures
        crate::components::poly_min_x(pts, k) <= pts[i].x <= crate::components::poly_max_x(
            pts,
            k,
        ),
        crate::components::poly_min_y(pts, k) <= pts[i].y <= crate::components::poly_max_y(
            pts,
            k,
        ),
    decreases k,
{
    if k > 1 && i < k - 1 {
        lemma_poly_extent(pts, k - 1, i);
    }
}

/// With every vertex bounded the polygon extents are bounded too.
pub proof fn lemma_poly_extent_bounds(pts: Seq<Vec2Fix>, k: int, b: int)
    requires
        1 <= k <= pts.len(),
        forall|i: int| 0 <= i < pts.len() ==> bounded(#[trigger] pts[i], b),
    ensures
        -b <= crate::components::poly_min_x(pts, k) <= b,
        -b <= crate::components::poly_max_x(pts, k) <= b,
        -b <= crate::components::poly_min_y(pts, k) <= b,
        -b <= crate::components::poly_max_y(pts, k) <= b,
    decreases k,
{
    assert(bounded(pts[0], b));
    if k > 1 {
        lemma_poly_extent_bounds(pts, k - 1, b);
        assert(bounded(pts[k - 1], b));
    }
}

/// An edge whose endpoints do not pass the query point on the left cannot
/// be crossed by the rightward ray.
proof fn lemma_edge_no_cross_right(a: Vec2Fix, b: Vec2Fix, p: Vec2Fix)
    requires
        a.x <= p.x,
        b.x <= p.x,
    ensures
        !edge_crosses_spec(a, b, p),
{
    if (a.y > p.y) != (b.y > p.y) {
        let dy = b.y - a.y;
        let w = p.y - a.y;
        if dy > 0 {
            assert((p.x - a.x) * dy >= (b.x - a.x) * w) by (nonlinear_arith)
                requires
                    a.x <= p.x,
                    b.x <= p.x,
                    0 <= w < dy,
            {}
        } else {
            assert((p.x - a.x) * dy <= (b.x - a.x) * w) by (nonlinear_arith)
                requires
                    a.x <= p.x,
                    b.x <= p.x,
                    dy <= w <= -1,
            {}
        }
    }
}

/// An edge strictly right of the query point is crossed whenever it
/// straddles the query height.
proof fn lemma_edge_cross_left(a: Vec2Fix, b: Vec2Fix, p: Vec2Fix)
    requires
        p.x < a.x,
        p.x < b.x,
        (a.y > p.y) != (b.y > p.y),
    ensures
        edge_crosses_spec(a, b, p),
{
    let dy = b.y - a.y;
    let w = p.y - a.y;
    if dy > 0 {
        assert((p.x - a.x) * dy < (b.x - a.x) * w) by (nonlinear_arith)
            requires
                p.x < a.x,
                p.x < b.x,
                0 <= w < dy,
        {}
    } else {
        assert((p.x - a.x) * dy > (b.x - a.x) * w) by (nonlinear_arith)
            requires
                p.x < a.x,
                p.x < b.x,
                dy <= w <= -1,
        {}
    }
}

/// With every vertex at or left of the query point there are no crossings.
proof fn lemma_no_crossings_all_left(pts: Seq<Vec2Fix>, p: Vec2Fix, k: int)
    requires
        k <= pts.len(),
        forall|i: int| 0 <= i < pts.len() ==> (#[trigger] pts[i]).x <= p.x,
    ensures
        poly_crossings(pts, p, k) == 0,
    decreases k,
{
    if k > 0 {
        lemma_no_crossings_all_left(pts, p, k - 1);
        lemma_edge_no_cross_right(pts[k - 1], pts[prev_vertex(pts.len() as int, k - 1)], p);
    }
}

/// With the query height outside every vertex's side no edge straddles, so
/// there are no crossings.
proof fn lemma_no_crossings_uniform_side(pts: Seq<Vec2Fix>, p: Vec2Fix, k: int, side: bool)
    requires
        k <= pts.len(),
        forall|i: int| 0 <= i < pts.len() ==> above_spec(pts, p, i) == side,
    ensures
        poly_crossings(pts, p, k) == 0,
    decreases k,
{
    if k > 0 {
        lemma_no_crossings_uniform_side(pts, p, k - 1, side);
        assert(above_spec(pts, p, k - 1) == side);
        assert(above_spec(pts, p, prev_vertex(pts.len() as int, k - 1)) == side);
    }
}

/// With every vertex strictly right of the query point each straddling edge
/// is crossed, so crossings and straddles agree.
proof fn lemma_crossings_eq_straddles_right(pts: Seq<Vec2Fix>, p: Vec2Fix, k: int)
    requires
        k <= pts.len(),
        forall|i: int| 0 <= i < pts.len() ==> p.x < (#[trigger] pts[i]).x,
    ensures
        poly_crossings(pts, p, k) == straddle_count(pts, p, k),
    decreases k,
{
    if k > 0 {
        lemma_crossings_eq_straddles_right(pts, p, k - 1);
        let a = pts[k - 1];
        let b = pts[prev_vertex(pts.len() as int, k - 1)];
        if (a.y > p.y) != (b.y > p.y) {
            lemma_edge_cross_left(a, b, p);
        }
    }
}

/// The running parity of the straddle count: among edges `1..k` the count
/// is odd exactly when the first and last straddle bits differ, and the
/// wrap-around edge closes the ring, making the whole count even.
proof fn lemma_straddle_parity(pts: Seq<Vec2Fix>, p: Vec2Fix, k: int)
    requires
        1 <= k <= pts.len(),
        pts.len() >= 1,
    ensures
        (straddle_count(pts, p, k) + if above_spec(pts, p, 0) != above_spec(
            pts,
            p,
            pts.len() - 1,
        ) {
            1nat
        } else {
            0nat
        }) % 2 == (if above_spec(pts, p, 0) != above_spec(pts, p, k - 1) {
            1nat
        } else {
            0nat
        }) % 2,
    decreases k,
{
    if k == 1 {
    } else {
        lemma_straddle_parity(pts, p, k - 1);
    }
}

/// The ray crosses the closed ring an even number of times whenever every
/// straddling edge is counted.
pub proof fn lemma_straddles_even(pts: Seq<Vec2Fix>, p: Vec2Fix)
    requires
        pts.len() >= 1,
    ensures
        straddle_count(pts, p, pts.len() as int) % 2 == 0,
{
    lemma_straddle_parity(pts, p, pts.len() as int);
}

/// A point inside a polygon by the crossing rule lies within the polygon's
/// bounding extents.
pub proof fn lemma_polygon_inside_bbox(pts: Seq<Vec2Fix>, p: Vec2Fix)
    requires
        pts.len() >= 3,
        in_polygon_spec(pts, p),
    ensures
        crate::components::poly_min_x(pts, pts.len() as int) <= p.x,
        p.x < crate::components::poly_max_x(pts, pts.len() as int),
        crate::components::poly_min_y(pts, pts.len() as int) <= p.y,
        p.y < crate::components::poly_max_y(pts, pts.len() as int),
{
    let n = pts.len() as int;
    // some edge crosses, so some vertex is above and some is not
    lemma_crossing_exists(pts, p, n);
    let w = choose|i: int| 0 <= i < n && edge_crosses_spec(
        pts[i],
        pts[prev_vertex(n, i)],
        p,
    );
    let wa = if above_spec(pts, p, w) {
        w
    } else {
        prev_vertex(n, w)
    };
    let wb = if above_spec(pts, p, w) {
        prev_vertex(n, w)
    } else {
        w
    };
    assert(above_spec(pts, p, wa) && !above_spec(pts, p, wb));
    lemma_poly_extent(pts, n, wa);
    lemma_poly_extent(pts, n, wb);
    // right: with every vertex at or left of the ray there is no crossing
    if crate::components::poly_max_x(pts, n) <= p.x {
        assert forall|i: int| 0 <= i < n implies (#[trigger] pts[i]).x <= p.x by {
            lemma_poly_extent(pts, n, i);
        }
        lemma_no_crossings_all_left(pts, p, n);
    }
    // left: with every vertex right of the ray all straddles cross, and the
    // ring straddles evenly
    if p.x < crate::components::poly_min_x(pts, n) {
        assert forall|i: int| 0 <= i < n implies p.x < (#[trigger] pts[i]).x by {
            lemma_poly_extent(pts, n, i);
        }
        lemma_crossings_eq_straddles_right(pts, p, n);
        lemma_straddles_even(pts, p);
    }
}

/// Dot product of `p - a` with `b - a`, exact.
pub open spec fn seg_dot_spec(a: Vec2Fix, b: Vec2Fix, p: Vec2Fix) -> int {
    (p.x - a.x) * (b.x - a.x) + (p.y - a.y) * (b.y - a.y)
}

/// Squared length of `b - a`, exact.
pub open spec fn seg_len_sq_spec(a: Vec2Fix, b: Vec2Fix) -> int {
    (b.x - a.x) * (b.x - a.x) + (b.y - a.y) * (b.y - a.y)
}

/// The closest-point parameter along the segment, in thousandths and not
/// yet clamped.  A degenerate segment yields a large parameter, so the
/// closest point degrades to the far endpoint.
pub open spec fn seg_t_raw_spec(a: Vec2Fix, b: Vec2Fix, p: Vec2Fix) -> int {
    if seg_len_sq_spec(a, b) == 0 {
        2000
    } else {
        tdiv(seg_dot_spec(a, b, p) * 1000, seg_len_sq_spec(a, b))
    }
}

/// The raw parameter clamped into the segment.
pub open spec fn seg_t_spec(a: Vec2Fix, b: Vec2Fix, p: Vec2Fix) -> int {
    let t = seg_t_raw_spec(a, b, p);
    if t < 0 {
        0
    } else if t > 1000 {
        1000
    } else {
        t
    }
}

/// The closest point of the segment to `p`, by linear interpolation with
/// the clamped parameter.
pub open spec fn seg_closest_spec(a: Vec2Fix, b: Vec2Fix, p: Vec2Fix) -> Vec2Fix {
    let t = seg_t_spec(a, b, p);
    Vec2Fix {
        x: (a.x + tdiv((b.x - a.x) * t, 1000)) as i64,
        y: (a.y + tdiv((b.y - a.y) * t, 1000)) as i64,
    }
}

/// Distance from `p` to the segment, rounded down to the fixed-point grid.
pub open spec fn seg_dist_spec(a: Vec2Fix, b: Vec2Fix, p: Vec2Fix) -> int {
    let c = seg_closest_spec(a, b, p);
    fsqrt(((p.x - c.x) * (p.x - c.x) + (p.y - c.y) * (p.y - c.y)) as nat) as int
}

/// Minimum distance from `p` over the first `k` polygon edges (edge `i`
/// runs from vertex `i` to its successor).
pub open spec fn poly_min_dist_spec(pts: Seq<Vec2Fix>, p: Vec2Fix, k: int) -> int
    decreases k,
{
    if k <= 0 {
        DIST_INF as int
    } else {
        let d = seg_dist_spec(pts[k - 1], pts[(k - 1 + 1) % (pts.len() as int)], p);
        let m = poly_min_dist_spec(pts, p, k - 1);
        if d < m {
            d
        } else {
            m
        }
    }
}

/// Index of the first edge achieving the running minimum among the first
/// `k` edges (strictly-smaller updates, matching the scan order).
pub open spec fn poly_argmin_spec(pts: Seq<Vec2Fix>, p: Vec2Fix, k: int) -> int
    decreases k,
{
    if k <= 0 {
        0
    } else {
        let d = seg_dist_spec(pts[k - 1], pts[(k - 1 + 1) % (pts.len() as int)], p);
        let m = poly_min_dist_spec(pts, p, k - 1);
        if d < m {
            k - 1
        } else {
            poly_argmin_spec(pts, p, k - 1)
        }
    }
}

/// Signed distance from `point` to the shape's boundary: for a circle the
/// center distance minus the radius, rounded toward the boundary (floored
/// within the circle, ceiled outside it), so the distance is at most zero
/// exactly when the point lies within the circle; for a polygon the
/// unsigned minimum edge distance in model space.
pub open spec fn signed_distance_spec(shape: Shape, shape_position: Vec2Fix, point: Vec2Fix) -> int {
    match shape {
        Shape::Circle(radius) => {
            let dx = point.x - shape_position.x;
            let dy = point.y - shape_position.y;
            let d2 = (dx * dx + dy * dy) as nat;
            if d2 <= radius * radius {
                fsqrt(d2) - radius
            } else {
                crate::geom::csqrt(d2) - radius
            }
        },
        Shape::Polygon(pts) => poly_min_dist_spec(
            pts@,
            rel_point_spec(shape_position, point),
            pts@.len() as int,
        ),
    }
}

/// A circle's signed distance is at most zero exactly on the points the
/// circle contains.
pub proof fn lemma_circle_distance_sign(radius: i64, shape_position: Vec2Fix, point: Vec2Fix)
    requires
        0 <= radius,
    ensures
        (signed_distance_spec(Shape::Circle(radius), shape_position, point) <= 0)
            <==> in_circle_spec(shape_position, radius as int, point),
{
    let dx = point.x - shape_position.x;
    let dy = point.y - shape_position.y;
    lemma_square_bound(dx, if dx < 0 { -dx } else { dx });
    lemma_square_bound(dy, if dy < 0 { -dy } else { dy });
    let d2 = (dx * dx + dy * dy) as nat;
    crate::geom::lemma_fsqrt_bounds(d2);
    if d2 <= radius * radius {
        crate::geom::lemma_fsqrt_le(d2, radius as nat);
    } else {
        crate::geom::lemma_fsqrt_ge(d2, radius as nat);
        if fsqrt(d2) == radius {
            assert(fsqrt(d2) * fsqrt(d2) < d2);
        }
    }
}

/// The raw closest-point parameter of the segment, executable form.
fn seg_t_raw(a: Vec2Fix, b: Vec2Fix, p: Vec2Fix) -> (t: i128)
    requires
        bounded(a, COORD_LIMIT as int),
        bounded(b, COORD_LIMIT as int),
        bounded(p, 3 * COORD_LIMIT as int),
    ensures
        t == seg_t_raw_spec(a, b, p),
{
    let ax = a.x as i128;
    let ay = a.y as i128;
    let dot = mul_i128((p.x as i128) - ax, (b.x as i128) - ax)
        + mul_i128((p.y as i128) - ay, (b.y as i128) - ay);
    let len2 = mul_i128((b.x as i128) - ax, (b.x as i128) - ax)
        + mul_i128((b.y as i128) - ay, (b.y as i128) - ay);
    proof {
        lemma_square_bound((b.x - a.x) as int, 2_000_000_000);
        lemma_square_bound((b.y - a.y) as int, 2_000_000_000);
    }
    if len2 == 0 {
        2000
    } else {
        div_trunc_i128(dot * 1000, len2)
    }
}

/// Distance from `p` to the segment, executable form.
fn seg_dist(a: Vec2Fix, b: Vec2Fix, p: Vec2Fix) -> (d: i64)
    requires
        bounded(a, COORD_LIMIT as int),
        bounded(b, COORD_LIMIT as int),
        bounded(p, 3 * COORD_LIMIT as int),
    ensures
        d == seg_dist_spec(a, b, p),
        0 <= d < DIST_INF,
{
    let ax = a.x as i128;
    let ay = a.y as i128;
    let traw: i128 = seg_t_raw(a, b, p);
    let t: i128 = if traw < 0 {
        0
    } else if traw > 1000 {
        1000
    } else {
        traw
    };
    let wx = mul_i128((b.x as i128) - ax, t);
    let wy = mul_i128((b.y as i128) - ay, t);
    proof {
        assert(-2_000_000_000_000 <= wx <= 2_000_000_000_000
            && -2_000_000_000_000 <= wy <= 2_000_000_000_000) by (nonlinear_arith)
            requires
                wx == ((b.x as i128) - ax) * t,
                wy == ((b.y as i128) - ay) * t,
                -2_000_000_000 <= (b.x as i128) - ax <= 2_000_000_000,
                -2_000_000_000 <= (b.y as i128) - ay <= 2_000_000_000,
                0 <= t <= 1000,
        {}
        lemma_tdiv_bound(wx as int, 1000);
        lemma_tdiv_bound(wy as int, 1000);
    }
    let cx = ax + div_trunc_i128(wx, 1000);
    let cy = ay + div_trunc_i128(wy, 1000);
    let ddx = (p.x as i128) - cx;
    let ddy = (p.y as i128) - cy;
    proof {
        lemma_square_bound(ddx as int, 6_000_000_000_000);
        lemma_square_bound(ddy as int, 6_000_000_000_000);
    }
    let d2 = (mul_i128(ddx, ddx) + mul_i128(ddy, ddy)) as u128;
    let d = isqrt(d2);
    proof {
        lemma_fsqrt_le(d2 as nat, 9_000_000_000_000);
    }
    d as i64
}

/// Signed distance from `point` to the shape's boundary.
pub fn signed_distance_to_sahpe(shape: &Shape, shape_position: Vec2Fix, point: Vec2Fix) -> (d: i64)
    requires
        shape.wf(),
        bounded(shape_position, COORD_LIMIT as int),
        bounded(point, 2 * COORD_LIMIT as int),
    ensures
        d == signed_distance_spec(*shape, shape_position, point),
{
    match shape {
        Shape::Circle(radius) => {
            let diff = Vec2Fix {
                x: point.x - shape_position.x,
                y: point.y - shape_position.y,
            };
            proof {
                lemma_square_bound(diff.x as int, 3_000_000_000);
                lemma_square_bound(diff.y as int, 3_000_000_000);
            }
            let d2 = diff.len_sq();
            let len = isqrt(d2);
            proof {
                lemma_fsqrt_le(d2 as nat, 5_000_000_000);
            }
            let rr = mul_i128(*radius as i128, *radius as i128) as u128;
            if d2 <= rr {
                (len as i64) - *radius
            } else {
                let exact = mul_i128(len as i128, len as i128) as u128 == d2;
                let ceil: i64 = if exact {
                    len as i64
                } else {
                    (len as i64) + 1
                };
                ceil - *radius
            }
        },
        Shape::Polygon(polygon_points) => {
            let p = Vec2Fix {
                x: point.x - shape_position.x,
                y: point.y - shape_position.y,
            };
            let n = polygon_points.len();
            let mut min_dist: i64 = DIST_INF;
            let mut i: usize = 0;
            while i < n
                invariant
                    0 <= i <= n,
                    n == polygon_points@.len(),
                    3 <= n <= 4096,
                    forall|k: int| 0 <= k < n ==> bounded(#[trigger] polygon_points@[k], COORD_LIMIT as int),
                    bounded(p, 3 * COORD_LIMIT as int),
                    min_dist == poly_min_dist_spec(polygon_points@, p, i as int),
                decreases n - i,
            {
                let a = polygon_points[i];
                let next = if i + 1 == n { 0 } else { i + 1 };
                let b = polygon_points[next];
                proof {
                    assert(next as int == (i as int + 1) % (n as int)) by {
                        if i + 1 == n {
                            assert((n as int) % (n as int) == 0) by {
                                vstd::arithmetic::div_mod::lemma_mod_self_0(n as int);
                            }
                        } else {
                            vstd::arithmetic::div_mod::lemma_small_mod((i + 1) as nat, n as nat);
                        }
                    }
                }
                let d = seg_dist(a, b, p);
                if d < min_dist {
                    min_dist = d;
                }
                i = i + 1;
            }
            min_dist
        },
    }
}

/// The (unnormalized) outward direction paired with the boundary distance:
/// for a circle the center-to-point vector; for a polygon the direction away
/// from the nearest edge, or from its nearest endpoint when the closest
/// point parameter falls outside the segment.
pub open spec fn shape_normal_spec(shape: Shape, shape_position: Vec2Fix, point: Vec2Fix) -> Vec2Fix {
    match shape {
        Shape::Circle(_) => rel_point_spec(shape_position, point),
        Shape::Polygon(pts) => {
            let p = rel_point_spec(shape_position, point);
            let i = poly_argmin_spec(pts@, p, pts@.len() as int);
            let a = pts@[i];
            let b = pts@[(i + 1) % (pts@.len() as int)];
            let traw = seg_t_raw_spec(a, b, p);
            if traw < 0 {
                Vec2Fix { x: (p.x - a.x) as i64, y: (p.y - a.y) as i64 }
            } else if traw > 1000 {
                Vec2Fix { x: (p.x - b.x) as i64, y: (p.y - b.y) as i64 }
            } else {
                Vec2Fix { x: (b.y - a.y) as i64, y: (a.x - b.x) as i64 }
            }
        },
    }
}

/// Distance to the shape's boundary together with an (unnormalized) normal
/// direction at the closest feature.
pub fn signed_distance_and_normal_to_sahpe(
    shape: &Shape,
    shape_position: Vec2Fix,
    point: Vec2Fix,
) -> (r: (Vec2Fix, i64))
    requires
        shape.wf(),
        bounded(shape_position, COORD_LIMIT as int),
        bounded(point, 2 * COORD_LIMIT as int),
    ensures
        r.0 == shape_normal_spec(*shape, shape_position, point),
        r.1 == signed_distance_spec(*shape, shape_position, point),
{
    match shape {
        Shape::Circle(_) => {
            let normal = Vec2Fix {
                x: point.x - shape_position.x,
                y: point.y - shape_position.y,
            };
            let d = signed_distance_to_sahpe(shape, shape_position, point);
            (normal, d)
        },
        Shape::Polygon(polygon_points) => {
            let p = Vec2Fix {
                x: point.x - shape_position.x,
                y: point.y - shape_position.y,
            };
            let n = polygon_points.len();
            let mut min_dist: i64 = DIST_INF;
            let mut best: usize = 0;
            let mut i: usize = 0;
            while i < n
                invariant
                    0 <= i <= n,
                    n == polygon_points@.len(),
                    3 <= n <= 4096,
                    forall|k: int| 0 <= k < n ==> bounded(#[trigger] polygon_points@[k], COORD_LIMIT as int),
                    bounded(p, 3 * COORD_LIMIT as int),
                    min_dist == poly_min_dist_spec(polygon_points@, p, i as int),
                    best as int == poly_argmin_spec(polygon_points@, p, i as int),
                    best < n || best == 0,
                decreases n - i,
            {
                let a = polygon_points[i];
                let next = if i + 1 == n { 0 } else { i + 1 };
                let b = polygon_points[next];
                proof {
                    assert(next as int == (i as int + 1) % (n as int)) by {
                        if i + 1 == n {
                            assert((n as int) % (n as int) == 0) by {
                                vstd::arithmetic::div_mod::lemma_mod_self_0(n as int);
                            }
                        } else {
                            vstd::arithmetic::div_mod::lemma_small_mod((i + 1) as nat, n as nat);
                        }
                    }
                }
                let d = seg_dist(a, b, p);
                if d < min_dist {
                    min_dist = d;
                    best = i;
                }
                i = i + 1;
            }
            let a = polygon_points[best];
            let next = if best + 1 == n { 0 } else { best + 1 };
            let b = polygon_points[next];
            proof {
                assert(next as int == (best as int + 1) % (n as int)) by {
                    if best + 1 == n {
                        assert((n as int) % (n as int) == 0) by {
                            vstd::arithmetic::div_mod::lemma_mod_self_0(n as int);
                        }
                    } else {
                        vstd::arithmetic::div_mod::lemma_small_mod((best + 1) as nat, n as nat);
                    }
                }
            }
            let traw = seg_t_raw(a, b, p);
            let normal = if traw < 0 {
                Vec2Fix { x: p.x - a.x, y: p.y - a.y }
            } else if traw > 1000 {
                Vec2Fix { x: p.x - b.x, y: p.y - b.y }
            } else {
                Vec2Fix { x: b.y - a.y, y: a.x - b.x }
            };
            (normal, min_dist)
        },
    }
}

} // verus!
