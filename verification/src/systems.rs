//! The social-force model: the fixed-point exponential, the repulsion
//! force between two bodies, and the per-step systems that accumulate
//! forces, integrate velocity and position, and remove arrived agents.

use vstd::prelude::*;
use vstd::arithmetic::div_mod::{
    lemma_div_is_ordered, lemma_div_pos_is_pos, lemma_div_by_multiple,
    lemma_div_multiples_vanish,
};
use crate::geom::{
    Vec2Fix, Rect, COORD_LIMIT, bounded, tdiv, fsqrt, isqrt, mul_i128, div_trunc_i128,
    scaled_vec_spec, scale_to, v_add_spec, v_neg_spec, lemma_tdiv_bound, lemma_tdiv_neg,
    lemma_square_bound, lemma_fsqrt_le, lemma_fsqrt_ge, lemma_scaled_vec_bounded,
    lemma_scaled_vec_neg,
};
use crate::components::{
    Agent, Speed, MotivationForce, ObstacleForce, RepulsiveForce, Obstacle, Objective, Shape,
    SimulationConstants, CONST_LIMIT, RADIUS_LIMIT,
};
use crate::grid::GridMap;

verus! {

/// Largest magnitude of one pairwise force component.
pub const PAIR_LIMIT: i64 = 250_000_000_000_000;

/// Largest number of agents, and of obstacles, a step admits.
pub const MAX_BODIES: usize = 4096;

/// Largest magnitude of an accumulated force component
/// (`MAX_BODIES * PAIR_LIMIT`).
pub const ACC_LIMIT: i64 = 1_024_000_000_000_000_000;

/// Powers of three, bounding the growth of the fixed-point exponential.
pub open spec fn pow3(q: nat) -> int
    decreases q,
{
    if q == 0 {
        1
    } else {
        3 * pow3((q - 1) as nat)
    }
}

/// `q` repeated decay steps of the fixed-point exponential: each step
/// multiplies by `e^-1` in thousandths.
pub open spec fn exp_decay_steps(q: nat) -> int
    decreases q,
{
    if q == 0 {
        1000
    } else {
        tdiv(exp_decay_steps((q - 1) as nat) * 368, 1000)
    }
}

/// `q` repeated growth steps of the fixed-point exponential: each step
/// multiplies by `e` in thousandths.
pub open spec fn exp_growth_steps(q: nat) -> int
    decreases q,
{
    if q == 0 {
        1000
    } else {
        tdiv(exp_growth_steps((q - 1) as nat) * 2718, 1000)
    }
}

/// Truncated power series for `e^(-r/1000)` with `0 <= r < 1000`, in
/// thousandths.
pub open spec fn poly_decay(r: int) -> int {
    1000 - r + tdiv(r * r, 2000) - tdiv(r * r * r, 6_000_000) + tdiv(
        r * r * r * r,
        24_000_000_000,
    ) - tdiv(r * r * r * r * r, 120_000_000_000_000)
}

/// Truncated power series for `e^(r/1000)` with `0 <= r < 1000`, in
/// thousandths.
pub open spec fn poly_growth(r: int) -> int {
    1000 + r + tdiv(r * r, 2000) + tdiv(r * r * r, 6_000_000) + tdiv(
        r * r * r * r,
        24_000_000_000,
    ) + tdiv(r * r * r * r * r, 120_000_000_000_000)
}

/// The fixed-point exponential `e^(-x/1000)` in thousandths.  The argument
/// is clamped below at -10000, so the factor saturates at `e^10` for deep
/// penetrations; beyond 64 whole units of decay the result is zero.
pub open spec fn exp_neg_spec(x: int) -> int {
    let a = if x < -10_000 {
        -10_000int
    } else {
        x
    };
    if a >= 0 {
        let q = a / 1000;
        let r = a % 1000;
        if q >= 64 {
            0
        } else {
            tdiv(exp_decay_steps(q as nat) * poly_decay(r), 1000)
        }
    } else {
        let p = -a;
        let q = p / 1000;
        let r = p % 1000;
        tdiv(exp_growth_steps(q as nat) * poly_growth(r), 1000)
    }
}

/// Decay steps stay within the unit interval.
pub proof fn lemma_exp_decay_steps_bounds(q: nat)
    ensures
        0 <= exp_decay_steps(q) <= 1000,
    decreases q,
{
    if q > 0 {
        lemma_exp_decay_steps_bounds((q - 1) as nat);
        let s = exp_decay_steps((q - 1) as nat);
        assert(0 <= s * 368 <= 368_000) by (nonlinear_arith)
            requires 0 <= s <= 1000,
        {}
        lemma_tdiv_bound(s * 368, 1000);
        lemma_div_is_ordered(s * 368, 368_000, 1000);
    }
}

/// Growth steps stay below `1000 * 3^q`.
pub proof fn lemma_exp_growth_steps_bounds(q: nat)
    ensures
        0 <= exp_growth_steps(q) <= 1000 * pow3(q),
        1 <= pow3(q),
    decreases q,
{
    if q == 0 {
    } else {
        lemma_exp_growth_steps_bounds((q - 1) as nat);
        let s = exp_growth_steps((q - 1) as nat);
        let p = pow3((q - 1) as nat);
        assert(0 <= s * 2718 <= (3 * s) * 1000) by (nonlinear_arith)
            requires 0 <= s,
        {}
        lemma_tdiv_bound(s * 2718, 1000);
        lemma_div_by_multiple(3 * s, 1000);
        lemma_div_is_ordered(s * 2718, (3 * s) * 1000, 1000);
        assert(3 * s <= 1000 * pow3(q)) by (nonlinear_arith)
            requires s <= 1000 * p, pow3(q) == 3 * p, 1 <= p,
        {}
    }
}

/// `3^10`, unfolded.
pub proof fn lemma_pow3_ten()
    ensures
        pow3(10) == 59049,
{
    reveal_with_fuel(pow3, 11);
}

/// The decay series stays within `[1, 1540]` on its domain.
pub proof fn lemma_poly_decay_bounds(r: int)
    requires
        0 <= r < 1000,
    ensures
        1 <= poly_decay(r) <= 1540,
{
    let r2 = r * r;
    let r3 = r * r * r;
    let r4 = r * r * r * r;
    let r5 = r * r * r * r * r;
    assert(0 <= r2 <= 998_001 && 0 <= r3 <= 3000 * r2 && 0 <= r4 <= 997_002_999_000
        && 0 <= r5 <= 5000 * r4 && r3 <= 997_002_999)
        by (nonlinear_arith)
        requires
            0 <= r < 1000,
            r2 == r * r,
            r3 == r * r * r,
            r4 == r * r * r * r,
            r5 == r * r * r * r * r,
    {}
    lemma_tdiv_bound(r2, 2000);
    lemma_tdiv_bound(r3, 6_000_000);
    lemma_tdiv_bound(r4, 24_000_000_000);
    lemma_tdiv_bound(r5, 120_000_000_000_000);
    lemma_div_is_ordered(r2, 998_001, 2000);
    lemma_div_is_ordered(r4, 997_002_999_000, 24_000_000_000);
    // the alternating tail is dominated termwise
    assert(tdiv(r3, 6_000_000) <= tdiv(r2, 2000)) by {
        lemma_div_is_ordered(r3, 3000 * r2, 6_000_000);
        lemma_mul_div_equal(r2, 3000, 2000);
    }
    assert(tdiv(r5, 120_000_000_000_000) <= tdiv(r4, 24_000_000_000)) by {
        lemma_div_is_ordered(r5, 5000 * r4, 120_000_000_000_000);
        lemma_mul_div_equal(r4, 5000, 24_000_000_000);
    }
}

/// `(k * a) / (k * b) == a / b` for positive `k`, `b`, applied with the
/// concrete scale factors of the power series.
proof fn lemma_mul_div_equal(a: int, k: int, b: int)
    requires
        0 <= a,
        1 <= k,
        1 <= b,
    ensures
        (k * a) / (k * b) == a / b,
{
    vstd::arithmetic::div_mod::lemma_div_denominator(k * a, k, b);
    assert((k * a) / k == a) by {
        lemma_div_multiples_vanish(a, k);
    }
}

/// The growth series stays within `[1000, 2718]` on its domain.
pub proof fn lemma_poly_growth_bounds(r: int)
    requires
        0 <= r < 1000,
    ensures
        1000 <= poly_growth(r) <= 2718,
{
    let r2 = r * r;
    let r3 = r * r * r;
    let r4 = r * r * r * r;
    let r5 = r * r * r * r * r;
    assert(0 <= r2 <= 998_001 && 0 <= r3 <= 997_002_999 && 0 <= r4 <= 997_002_999_000
        && 0 <= r5 <= 997_002_999_000_000) by (nonlinear_arith)
        requires
            0 <= r < 1000,
            r2 == r * r,
            r3 == r * r * r,
            r4 == r * r * r * r,
            r5 == r * r * r * r * r,
    {}
    lemma_tdiv_bound(r2, 2000);
    lemma_tdiv_bound(r3, 6_000_000);
    lemma_tdiv_bound(r4, 24_000_000_000);
    lemma_tdiv_bound(r5, 120_000_000_000_000);
    lemma_div_is_ordered(r2, 998_001, 2000);
    lemma_div_is_ordered(r3, 997_002_999, 6_000_000);
    lemma_div_is_ordered(r4, 997_002_999_000, 24_000_000_000);
    lemma_div_is_ordered(r5, 997_002_999_000_000, 120_000_000_000_000);
}

/// The exponential is bounded by `e^10` and a fraction, in thousandths.
pub proof fn lemma_exp_neg_spec_bounds(x: int)
    ensures
        0 <= exp_neg_spec(x) <= 180_000_000,
{
    let a = if x < -10_000 {
        -10_000int
    } else {
        x
    };
    if a >= 0 {
        let q = a / 1000;
        let r = a % 1000;
        lemma_div_pos_is_pos(a, 1000);
        if q < 64 {
            lemma_exp_decay_steps_bounds(q as nat);
            lemma_poly_decay_bounds(r);
            let s = exp_decay_steps(q as nat);
            let p = poly_decay(r);
            assert(0 <= s * p <= 1_540_000) by (nonlinear_arith)
                requires 0 <= s <= 1000, 1 <= p <= 1540,
            {}
            lemma_tdiv_bound(s * p, 1000);
        }
    } else {
        let p0 = -a;
        let q = p0 / 1000;
        let r = p0 % 1000;
        lemma_div_pos_is_pos(p0, 1000);
        lemma_div_is_ordered(p0, 10_000, 1000);
        lemma_exp_growth_steps_bounds(q as nat);
        assert(pow3(q as nat) <= pow3(10)) by {
            lemma_pow3_monotone(q as nat, 10);
        }
        lemma_pow3_ten();
        lemma_poly_growth_bounds(r);
        let s = exp_growth_steps(q as nat);
        let pg = poly_growth(r);
        assert(0 <= s * pg <= 59_049_000 * 2718) by (nonlinear_arith)
            requires 0 <= s <= 59_049_000, 1000 <= pg <= 2718,
        {}
        lemma_tdiv_bound(s * pg, 1000);
        lemma_div_is_ordered(s * pg, 59_049_000int * 2718, 1000);
    }
}

/// Powers of three are positive.
pub proof fn lemma_pow3_pos(q: nat)
    ensures
        1 <= pow3(q),
    decreases q,
{
    if q > 0 {
        lemma_pow3_pos((q - 1) as nat);
    }
}

/// Powers of three are monotone.
pub proof fn lemma_pow3_monotone(a: nat, b: nat)
    requires
        a <= b,
    ensures
        pow3(a) <= pow3(b),
        1 <= pow3(a),
    decreases b - a,
{
    lemma_pow3_pos(a);
    if a < b {
        lemma_pow3_monotone(a, (b - 1) as nat);
        lemma_pow3_pos((b - 1) as nat);
        assert(pow3((b - 1) as nat) <= pow3(b)) by (nonlinear_arith)
            requires
                pow3(b) == 3 * pow3((b - 1) as nat),
                1 <= pow3((b - 1) as nat),
        {}
    }
}

/// The fixed-point exponential, executable form.
pub fn exp_neg_fix(x: i64) -> (e: i64)
    ensures
        e == exp_neg_spec(x as int),
        0 <= e <= 180_000_000,
{
    proof {
        lemma_exp_neg_spec_bounds(x as int);
    }
    let a: i64 = if x < -10_000 {
        -10_000
    } else {
        x
    };
    if a >= 0 {
        let q = (a as u64) / 1000;
        let r = (a as u64) % 1000;
        if q >= 64 {
            0
        } else {
            let mut acc: u64 = 1000;
            let mut i: u64 = 0;
            while i < q
                invariant
                    0 <= i <= q < 64,
                    acc == exp_decay_steps(i as nat),
                    0 <= acc <= 1000,
                decreases q - i,
            {
                proof {
                    lemma_exp_decay_steps_bounds((i + 1) as nat);
                    assert(0 <= (acc as int) * 368 <= 368_000) by (nonlinear_arith)
                        requires 0 <= acc as int <= 1000,
                    {}
                }
                acc = acc * 368 / 1000;
                i = i + 1;
            }
            let p = poly_decay_fix(r);
            proof {
                lemma_poly_decay_bounds(r as int);
                assert(0 <= (acc as int) * (p as int) <= 1_540_000) by (nonlinear_arith)
                    requires 0 <= acc as int <= 1000, 1 <= p as int <= 1540,
                {}
                lemma_tdiv_bound((acc as int) * (p as int), 1000);
            }
            ((acc * (p as u64)) / 1000) as i64
        }
    } else {
        let pa = (-a) as u64;
        let q = pa / 1000;
        let r = pa % 1000;
        proof {
            lemma_div_is_ordered(pa as int, 10_000, 1000);
            lemma_div_pos_is_pos(pa as int, 1000);
        }
        let mut acc: u64 = 1000;
        let mut i: u64 = 0;
        while i < q
            invariant
                0 <= i <= q <= 10,
                acc == exp_growth_steps(i as nat),
                0 <= acc <= 59_049_000,
            decreases q - i,
        {
            proof {
                lemma_exp_growth_steps_bounds((i + 1) as nat);
                lemma_pow3_monotone((i + 1) as nat, 10);
                lemma_pow3_ten();
                assert(0 <= (acc as int) * 2718 <= 59_049_000 * 2718) by (nonlinear_arith)
                    requires 0 <= acc as int <= 59_049_000,
                {}
                lemma_tdiv_bound((acc as int) * 2718, 1000);
            }
            acc = acc * 2718 / 1000;
            i = i + 1;
        }
        let p = poly_growth_fix(r);
        proof {
            lemma_poly_growth_bounds(r as int);
            assert(0 <= (acc as int) * (p as int) <= 59_049_000 * 2718) by (nonlinear_arith)
                requires 0 <= acc as int <= 59_049_000, 1000 <= p as int <= 2718,
            {}
            lemma_tdiv_bound((acc as int) * (p as int), 1000);
        }
        ((acc * (p as u64)) / 1000) as i64
    }
}

/// The truncated decay series, executable form.
fn poly_decay_fix(r: u64) -> (p: i64)
    requires
        r < 1000,
    ensures
        p == poly_decay(r as int),
{
    proof {
        assert((r as int) * (r as int) <= 998_001
            && (r as int) * (r as int) * (r as int) <= 997_002_999
            && (r as int) * (r as int) * (r as int) * (r as int) <= 997_002_999_000
            && (r as int) * (r as int) * (r as int) * (r as int) * (r as int)
                <= 997_002_999_000_000) by (nonlinear_arith)
            requires 0 <= r < 1000,
        {}
    }
    let r2 = r * r;
    let r3 = r2 * r;
    let r4 = r3 * r;
    let r5 = r4 * r;
    let t2 = (r2 / 2000) as i64;
    let t3 = (r3 / 6_000_000) as i64;
    let t4 = (r4 / 24_000_000_000) as i64;
    let t5 = (r5 / 120_000_000_000_000) as i64;
    1000 - (r as i64) + t2 - t3 + t4 - t5
}

/// The truncated growth series, executable form.
fn poly_growth_fix(r: u64) -> (p: i64)
    requires
        r < 1000,
    ensures
        p == poly_growth(r as int),
{
    proof {
        assert((r as int) * (r as int) <= 998_001
            && (r as int) * (r as int) * (r as int) <= 997_002_999
            && (r as int) * (r as int) * (r as int) * (r as int) <= 997_002_999_000
            && (r as int) * (r as int) * (r as int) * (r as int) * (r as int)
                <= 997_002_999_000_000) by (nonlinear_arith)
            requires 0 <= r < 1000,
        {}
    }
    let r2 = r * r;
    let r3 = r2 * r;
    let r4 = r3 * r;
    let r5 = r4 * r;
    let t2 = (r2 / 2000) as i64;
    let t3 = (r3 / 6_000_000) as i64;
    let t4 = (r4 / 24_000_000_000) as i64;
    let t5 = (r5 / 120_000_000_000_000) as i64;
    1000 + (r as i64) + t2 + t3 + t4 + t5
}

/// The social-force repulsion one body at `p2` exerts on a body at `p1`,
/// with `total_radius` the sum of the two body radii: an exponential term
/// `A * e^(-effective_distance / B)` along the unit normal from `p2` to
/// `p1`, plus, when the bodies overlap, a contact term proportional to the
/// penetration depth pushing along the normal and sliding along the
/// tangent.  Two coincident bodies yield no force (no defined direction).
pub open spec fn body_force_spec(
    p1: Vec2Fix,
    p2: Vec2Fix,
    total_radius: int,
    c: SimulationConstants,
) -> Vec2Fix {
    let dx = p1.x - p2.x;
    let dy = p1.y - p2.y;
    let len = fsqrt((dx * dx + dy * dy) as nat) as int;
    if len == 0 {
        Vec2Fix { x: 0, y: 0 }
    } else {
        let n = scaled_vec_spec(dx, dy, 1000);
        let eff = tdiv((len - total_radius) * 1000, c.pixels_per_meter as int);
        let arg = tdiv(eff * 1000, c.decay_length as int);
        let e = exp_neg_spec(arg);
        let repulsive = tdiv(c.repulsion_strength * e, 1000);
        let g = if eff < 0 {
            -eff
        } else {
            0int
        };
        let contact = tdiv(c.contact_stiffness * g, 1000);
        let sliding = tdiv(c.tangential_stiffness * g, 1000);
        let push = repulsive + contact;
        Vec2Fix {
            x: (tdiv(push * n.x, 1000) + tdiv(sliding * (-n.y) as int, 1000)) as i64,
            y: (tdiv(push * n.y, 1000) + tdiv(sliding * (n.x as int), 1000)) as i64,
        }
    }
}

/// Truncating division by a divisor of at least 1000 shrinks a bounded
/// value by three decimal digits.
proof fn lemma_tdiv_coarse(a: int, b: int, m: int)
    requires
        1000 <= b,
        -m <= a <= m,
        0 <= m,
    ensures
        -(m / 1000) <= tdiv(a, b) <= m / 1000,
{
    if a >= 0 {
        vstd::arithmetic::div_mod::lemma_div_is_ordered_by_denominator(a, 1000, b);
        lemma_div_is_ordered(a, m, 1000);
        lemma_div_pos_is_pos(a, b);
        lemma_div_pos_is_pos(m, 1000);
    } else {
        vstd::arithmetic::div_mod::lemma_div_is_ordered_by_denominator(-a, 1000, b);
        lemma_div_is_ordered(-a, m, 1000);
        lemma_div_pos_is_pos(-a, b);
        lemma_div_pos_is_pos(m, 1000);
    }
}

/// The repulsion force between bounded bodies never exceeds `PAIR_LIMIT`
/// per component.
pub proof fn lemma_body_force_bounded(
    p1: Vec2Fix,
    p2: Vec2Fix,
    total_radius: int,
    c: SimulationConstants,
)
    requires
        bounded(p1, COORD_LIMIT as int),
        bounded(p2, COORD_LIMIT as int),
        0 <= total_radius <= 2 * RADIUS_LIMIT,
        c.wf(),
    ensures
        bounded(body_force_spec(p1, p2, total_radius, c), PAIR_LIMIT as int),
{
    let dx = p1.x - p2.x;
    let dy = p1.y - p2.y;
    lemma_square_bound(dx, 2_000_000_000);
    lemma_square_bound(dy, 2_000_000_000);
    let len = fsqrt((dx * dx + dy * dy) as nat) as int;
    lemma_fsqrt_le((dx * dx + dy * dy) as nat, 3_000_000_000);
    if len != 0 {
        lemma_scaled_vec_bounded(dx, dy, 1000);
        let n = scaled_vec_spec(dx, dy, 1000);
        let num = (len - total_radius) * 1000;
        let eff = tdiv(num, c.pixels_per_meter as int);
        assert(-20_000_000_000 <= num <= 3_020_000_000_000) by (nonlinear_arith)
            requires
                num == (len - total_radius) * 1000,
                0 <= len <= 3_000_000_000,
                0 <= total_radius <= 20_000_000,
        {}
        let e = exp_neg_spec(tdiv(eff * 1000, c.decay_length as int));
        lemma_exp_neg_spec_bounds(tdiv(eff * 1000, c.decay_length as int));
        let repulsive = tdiv(c.repulsion_strength * e, 1000);
        assert(0 <= c.repulsion_strength * e <= 180_000_000_000_000_000) by (nonlinear_arith)
            requires
                0 <= c.repulsion_strength <= 1_000_000_000,
                0 <= e <= 180_000_000,
        {}
        lemma_tdiv_coarse(c.repulsion_strength * e, 1000, 180_000_000_000_000_000);
        let g = if eff < 0 {
            -eff
        } else {
            0int
        };
        lemma_tdiv_bound(num, c.pixels_per_meter as int);
        if eff < 0 {
            assert(num < 0);
            assert(g == (-num) / (c.pixels_per_meter as int));
            vstd::arithmetic::div_mod::lemma_div_is_ordered_by_denominator(
                -num,
                1000,
                c.pixels_per_meter as int,
            );
            lemma_div_is_ordered(-num, 20_000_000_000, 1000);
        }
        assert(0 <= g <= 20_000_000);
        let contact = tdiv(c.contact_stiffness * g, 1000);
        let sliding = tdiv(c.tangential_stiffness * g, 1000);
        assert(0 <= c.contact_stiffness * g <= 20_000_000_000_000_000
            && 0 <= c.tangential_stiffness * g <= 20_000_000_000_000_000)
            by (nonlinear_arith)
            requires
                0 <= c.contact_stiffness <= 1_000_000_000,
                0 <= c.tangential_stiffness <= 1_000_000_000,
                0 <= g <= 20_000_000,
        {}
        lemma_tdiv_coarse(c.contact_stiffness * g, 1000, 20_000_000_000_000_000);
        lemma_tdiv_coarse(c.tangential_stiffness * g, 1000, 20_000_000_000_000_000);
        let push = repulsive + contact;
        assert(-200_000_000_000_000_000 <= push * n.x <= 200_000_000_000_000_000
            && -200_000_000_000_000_000 <= push * n.y <= 200_000_000_000_000_000
            && -20_000_000_000_000_000 <= sliding * ((-n.y) as int) <= 20_000_000_000_000_000
            && -20_000_000_000_000_000 <= sliding * (n.x as int) <= 20_000_000_000_000_000)
            by (nonlinear_arith)
            requires
                0 <= push <= 200_000_000_000_000,
                0 <= sliding <= 20_000_000_000_000,
                -1000 <= n.x as int <= 1000,
                -1000 <= n.y as int <= 1000,
        {}
        lemma_tdiv_coarse(push * n.x, 1000, 200_000_000_000_000_000);
        lemma_tdiv_coarse(push * n.y, 1000, 200_000_000_000_000_000);
        lemma_tdiv_coarse(sliding * ((-n.y) as int), 1000, 20_000_000_000_000_000);
        lemma_tdiv_coarse(sliding * (n.x as int), 1000, 20_000_000_000_000_000);
    }
}

/// Newton's third law for the pairwise repulsion: swapping the two bodies
/// negates the force exactly, component for component.
pub proof fn lemma_body_force_antisymmetric(
    p1: Vec2Fix,
    p2: Vec2Fix,
    total_radius: int,
    c: SimulationConstants,
)
    requires
        bounded(p1, COORD_LIMIT as int),
        bounded(p2, COORD_LIMIT as int),
        0 <= total_radius <= 2 * RADIUS_LIMIT,
        c.wf(),
    ensures
        body_force_spec(p2, p1, total_radius, c) == v_neg_spec(
            body_force_spec(p1, p2, total_radius, c),
        ),
{
    lemma_body_force_bounded(p1, p2, total_radius, c);
    lemma_body_force_bounded(p2, p1, total_radius, c);
    let dx = p1.x - p2.x;
    let dy = p1.y - p2.y;
    assert((-dx) * (-dx) == dx * dx && (-dy) * (-dy) == dy * dy) by (nonlinear_arith) {}
    let len = fsqrt((dx * dx + dy * dy) as nat) as int;
    if len != 0 {
        lemma_scaled_vec_bounded(dx, dy, 1000);
        lemma_scaled_vec_neg(dx, dy, 1000);
        let n = scaled_vec_spec(dx, dy, 1000);
        let num = (len - total_radius) * 1000;
        let eff = tdiv(num, c.pixels_per_meter as int);
        let e = exp_neg_spec(tdiv(eff * 1000, c.decay_length as int));
        let repulsive = tdiv(c.repulsion_strength * e, 1000);
        let g = if eff < 0 {
            -eff
        } else {
            0int
        };
        let contact = tdiv(c.contact_stiffness * g, 1000);
        let sliding = tdiv(c.tangential_stiffness * g, 1000);
        let push = repulsive + contact;
        lemma_square_bound(dx, 2_000_000_000);
        lemma_square_bound(dy, 2_000_000_000);
        lemma_fsqrt_le((dx * dx + dy * dy) as nat, 3_000_000_000);
        lemma_exp_neg_spec_bounds(tdiv(eff * 1000, c.decay_length as int));
        assert(0 <= c.repulsion_strength * e <= 180_000_000_000_000_000) by (nonlinear_arith)
            requires
                0 <= c.repulsion_strength <= 1_000_000_000,
                0 <= e <= 180_000_000,
        {}
        lemma_tdiv_coarse(c.repulsion_strength * e, 1000, 180_000_000_000_000_000);
        assert(-20_000_000_000 <= num) by (nonlinear_arith)
            requires
                num == (len - total_radius) * 1000,
                0 <= len,
                0 <= total_radius <= 20_000_000,
        {}
        lemma_tdiv_bound(num, c.pixels_per_meter as int);
        if eff < 0 {
            vstd::arithmetic::div_mod::lemma_div_is_ordered_by_denominator(
                -num,
                1000,
                c.pixels_per_meter as int,
            );
            lemma_div_is_ordered(-num, 20_000_000_000, 1000);
        }
        assert(0 <= g <= 20_000_000);
        assert(0 <= c.contact_stiffness * g <= 20_000_000_000_000_000
            && 0 <= c.tangential_stiffness * g <= 20_000_000_000_000_000)
            by (nonlinear_arith)
            requires
                0 <= c.contact_stiffness <= 1_000_000_000,
                0 <= c.tangential_stiffness <= 1_000_000_000,
                0 <= g <= 20_000_000,
        {}
        lemma_tdiv_coarse(c.contact_stiffness * g, 1000, 20_000_000_000_000_000);
        lemma_tdiv_coarse(c.tangential_stiffness * g, 1000, 20_000_000_000_000_000);
        assert(-200_000_000_000_000_000 <= push * (n.x as int) <= 200_000_000_000_000_000
            && -200_000_000_000_000_000 <= push * (n.y as int) <= 200_000_000_000_000_000
            && -20_000_000_000_000_000 <= sliding * ((-n.y) as int) <= 20_000_000_000_000_000
            && -20_000_000_000_000_000 <= sliding * (n.x as int) <= 20_000_000_000_000_000)
            by (nonlinear_arith)
            requires
                0 <= push <= 200_000_000_000_000,
                0 <= sliding <= 20_000_000_000_000,
                -1000 <= n.x as int <= 1000,
                -1000 <= n.y as int <= 1000,
        {}
        lemma_tdiv_coarse(push * (n.x as int), 1000, 200_000_000_000_000_000);
        lemma_tdiv_coarse(push * (n.y as int), 1000, 200_000_000_000_000_000);
        lemma_tdiv_coarse(sliding * ((-n.y) as int), 1000, 20_000_000_000_000_000);
        lemma_tdiv_coarse(sliding * (n.x as int), 1000, 20_000_000_000_000_000);
        let m = scaled_vec_spec(-dx, -dy, 1000);
        assert(m.x as int == -(n.x as int) && m.y as int == -(n.y as int));
        assert(push * (m.x as int) == -(push * (n.x as int))
            && push * (m.y as int) == -(push * (n.y as int))
            && sliding * ((-m.y) as int) == -(sliding * ((-n.y) as int))
            && sliding * (m.x as int) == -(sliding * (n.x as int))) by (nonlinear_arith)
            requires
                m.x as int == -(n.x as int),
                m.y as int == -(n.y as int),
                -1000 <= n.x as int <= 1000,
                -1000 <= n.y as int <= 1000,
        {}
        lemma_tdiv_neg(push * (n.x as int), 1000);
        lemma_tdiv_neg(push * (n.y as int), 1000);
        lemma_tdiv_neg(sliding * ((-n.y) as int), 1000);
        lemma_tdiv_neg(sliding * (n.x as int), 1000);
        assert(tdiv(push * (m.x as int), 1000) == -tdiv(push * (n.x as int), 1000));
        assert(tdiv(push * (m.y as int), 1000) == -tdiv(push * (n.y as int), 1000));
        assert(tdiv(sliding * ((-m.y) as int), 1000) == -tdiv(
            sliding * ((-n.y) as int),
            1000,
        ));
        assert(tdiv(sliding * (m.x as int), 1000) == -tdiv(sliding * (n.x as int), 1000));
        assert(body_force_spec(p2, p1, total_radius, c).x as int == -(body_force_spec(
            p1,
            p2,
            total_radius,
            c,
        ).x as int));
        assert(body_force_spec(p2, p1, total_radius, c).y as int == -(body_force_spec(
            p1,
            p2,
            total_radius,
            c,
        ).y as int));
    }
}

/// The repulsion force between two bodies, executable form.
pub fn body_force(p1: Vec2Fix, p2: Vec2Fix, total_radius: i64, c: &SimulationConstants) -> (f:
    Vec2Fix)
    requires
        bounded(p1, COORD_LIMIT as int),
        bounded(p2, COORD_LIMIT as int),
        0 <= total_radius <= 2 * RADIUS_LIMIT,
        c.wf(),
    ensures
        f == body_force_spec(p1, p2, total_radius as int, *c),
        bounded(f, PAIR_LIMIT as int),
{
    proof {
        lemma_body_force_bounded(p1, p2, total_radius as int, *c);
    }
    let dx = p1.x - p2.x;
    let dy = p1.y - p2.y;
    proof {
        lemma_square_bound(dx as int, 2_000_000_000);
        lemma_square_bound(dy as int, 2_000_000_000);
        lemma_fsqrt_le(((dx as int) * (dx as int) + (dy as int) * (dy as int)) as nat,
            3_000_000_000);
    }
    let d2 = (mul_i128(dx as i128, dx as i128) + mul_i128(dy as i128, dy as i128)) as u128;
    let len = isqrt(d2);
    if len == 0 {
        Vec2Fix { x: 0, y: 0 }
    } else {
        let n = scale_to(dx, dy, 1000);
        let num = ((len as i64) - total_radius) * 1000;
        let eff = crate::geom::div_trunc(num, c.pixels_per_meter);
        proof {
            lemma_tdiv_coarse(num as int, c.pixels_per_meter as int, 3_020_000_000_000);
        }
        let arg = crate::geom::div_trunc(eff * 1000, c.decay_length);
        let e = exp_neg_fix(arg);
        let re = mul_i128(c.repulsion_strength as i128, e as i128);
        proof {
            assert(0 <= re <= 180_000_000_000_000_000) by (nonlinear_arith)
                requires
                    re == (c.repulsion_strength as i128) * (e as i128),
                    0 <= c.repulsion_strength as int <= 1_000_000_000,
                    0 <= e as int <= 180_000_000,
            {}
            lemma_tdiv_coarse(re as int, 1000, 180_000_000_000_000_000);
        }
        let repulsive = div_trunc_i128(re, 1000) as i64;
        let g: i64 = if eff < 0 {
            -eff
        } else {
            0
        };
        proof {
            lemma_tdiv_bound(num as int, c.pixels_per_meter as int);
            if eff < 0 {
                vstd::arithmetic::div_mod::lemma_div_is_ordered_by_denominator(
                    -(num as int),
                    1000,
                    c.pixels_per_meter as int,
                );
                lemma_div_is_ordered(-(num as int), 20_000_000_000, 1000);
            }
            assert(0 <= g <= 20_000_000);
        }
        let cg = mul_i128(c.contact_stiffness as i128, g as i128);
        let sg = mul_i128(c.tangential_stiffness as i128, g as i128);
        proof {
            assert(0 <= cg <= 20_000_000_000_000_000 && 0 <= sg <= 20_000_000_000_000_000)
                by (nonlinear_arith)
                requires
                    cg == (c.contact_stiffness as i128) * (g as i128),
                    sg == (c.tangential_stiffness as i128) * (g as i128),
                    0 <= c.contact_stiffness as int <= 1_000_000_000,
                    0 <= c.tangential_stiffness as int <= 1_000_000_000,
                    0 <= g as int <= 20_000_000,
            {}
            lemma_tdiv_coarse(cg as int, 1000, 20_000_000_000_000_000);
            lemma_tdiv_coarse(sg as int, 1000, 20_000_000_000_000_000);
        }
        let contact = div_trunc_i128(cg, 1000) as i64;
        let sliding = div_trunc_i128(sg, 1000) as i64;
        let push = repulsive + contact;
        let px = mul_i128(push as i128, n.x as i128);
        let py = mul_i128(push as i128, n.y as i128);
        let sx = mul_i128(sliding as i128, (-n.y) as i128);
        let sy = mul_i128(sliding as i128, n.x as i128);
        proof {
            assert(-200_000_000_000_000_000 <= px <= 200_000_000_000_000_000
                && -200_000_000_000_000_000 <= py <= 200_000_000_000_000_000
                && -20_000_000_000_000_000 <= sx <= 20_000_000_000_000_000
                && -20_000_000_000_000_000 <= sy <= 20_000_000_000_000_000)
                by (nonlinear_arith)
                requires
                    px == (push as i128) * (n.x as i128),
                    py == (push as i128) * (n.y as i128),
                    sx == (sliding as i128) * ((-n.y) as i128),
                    sy == (sliding as i128) * (n.x as i128),
                    0 <= push as int <= 200_000_000_000_000,
                    0 <= sliding as int <= 20_000_000_000_000,
                    -1000 <= n.x as int <= 1000,
                    -1000 <= n.y as int <= 1000,
            {}
            lemma_tdiv_coarse(px as int, 1000, 200_000_000_000_000_000);
            lemma_tdiv_coarse(py as int, 1000, 200_000_000_000_000_000);
            lemma_tdiv_coarse(sx as int, 1000, 20_000_000_000_000_000);
            lemma_tdiv_coarse(sy as int, 1000, 20_000_000_000_000_000);
        }
        let fx = div_trunc_i128(px, 1000) as i64 + div_trunc_i128(sx, 1000) as i64;
        let fy = div_trunc_i128(py, 1000) as i64 + div_trunc_i128(sy, 1000) as i64;
        Vec2Fix { x: fx, y: fy }
    }
}

/// An agent's resting bounds between steps: position inside the world
/// range, velocity within the admissible speed, and forces within the
/// accumulation limit.
pub open spec fn agent_bounds(a: Agent) -> bool {
    &&& bounded(a.position, COORD_LIMIT as int)
    &&& bounded(a.speed.0, CONST_LIMIT as int)
    &&& bounded(a.motivation_force.0, 3 * CONST_LIMIT as int)
    &&& bounded(a.obstacle_force.0, ACC_LIMIT as int)
    &&& bounded(a.repulsive_force.0, ACC_LIMIT as int)
}

/// The world point falls in a valid cell of the field.
pub open spec fn sample_ok(f: GridMap<Vec2Fix>, p: Vec2Fix) -> bool {
    f.valid_cell(f.cell_x_of(p.x as int), f.cell_y_of(p.y as int))
}

/// The field value at the point's cell.
pub open spec fn sample_val(f: GridMap<Vec2Fix>, p: Vec2Fix) -> Vec2Fix {
    f@[f.idx(f.cell_x_of(p.x as int), f.cell_y_of(p.y as int))]
}

/// Sets each agent's motivation force to the field's desired velocity at
/// the agent's cell minus the agent's current velocity (a relaxation toward
/// the field); an agent outside the grid keeps its previous motivation
/// force and is otherwise skipped this step.
#[verifier::loop_isolation(false)]
pub fn apply_vector_map(agents: &mut Vec<Agent>, vector_field: &GridMap<Vec2Fix>)
    requires
        vector_field.inv(),
        forall|cx: int, cy: int| vector_field.valid_cell(cx, cy) ==> bounded(
            #[trigger] vector_field@[vector_field.idx(cx, cy)],
            CONST_LIMIT as int,
        ),
        forall|k: int| 0 <= k < old(agents)@.len() ==> agent_bounds(#[trigger] old(agents)@[k]),
    ensures
        final(agents)@.len() == old(agents)@.len(),
        forall|k: int| 0 <= k < old(agents)@.len() ==> #[trigger] final(agents)@[k] == (Agent {
            motivation_force: if sample_ok(*vector_field, old(agents)@[k].position) {
                MotivationForce(
                    crate::geom::v_sub_spec(
                        sample_val(*vector_field, old(agents)@[k].position),
                        old(agents)@[k].speed.0,
                    ),
                )
            } else {
                old(agents)@[k].motivation_force
            },
            ..old(agents)@[k]
        }),
        forall|k: int| 0 <= k < final(agents)@.len() ==> agent_bounds(#[trigger] final(agents)@[k]),
{
    let n = agents.len();
    let mut k: usize = 0;
    while k < n
        invariant
            0 <= k <= n,
            agents@.len() == n,
            forall|t: int| 0 <= t < k ==> #[trigger] agents@[t] == (Agent {
                motivation_force: if sample_ok(*vector_field, old(agents)@[t].position) {
                    MotivationForce(
                        crate::geom::v_sub_spec(
                            sample_val(*vector_field, old(agents)@[t].position),
                            old(agents)@[t].speed.0,
                        ),
                    )
                } else {
                    old(agents)@[t].motivation_force
                },
                ..old(agents)@[t]
            }),
            forall|t: int| k <= t < n ==> #[trigger] agents@[t] == old(agents)@[t],
        decreases n - k,
    {
        let a = agents[k];
        match vector_field.get_value_at(a.position) {
            Some(base_vector) => {
                let mut b = a;
                b.motivation_force = MotivationForce(
                    Vec2Fix {
                        x: base_vector.x - a.speed.0.x,
                        y: base_vector.y - a.speed.0.y,
                    },
                );
                agents.set(k, b);
            },
            None => {},
        }
        k = k + 1;
    }
}

/// The body radius an obstacle shape presents to the repulsion formula: a
/// circle its radius; a polygon repels from its anchor point with no body
/// radius.
pub open spec fn obstacle_body_radius(s: Shape) -> int {
    match s {
        Shape::Circle(r) => r as int,
        Shape::Polygon(_) => 0,
    }
}

/// x component of the summed obstacle repulsion on a body at `p`, over the
/// first `k` obstacles.
pub open spec fn obs_sum_x(p: Vec2Fix, obs: Seq<Obstacle>, k: nat, c: SimulationConstants) -> int
    decreases k,
{
    if k == 0 {
        0
    } else {
        obs_sum_x(p, obs, (k - 1) as nat, c) + body_force_spec(
            p,
            obs[k - 1].position,
            c.agent_radius + obstacle_body_radius(obs[k - 1].shape),
            c,
        ).x
    }
}

/// y component of the summed obstacle repulsion.
pub open spec fn obs_sum_y(p: Vec2Fix, obs: Seq<Obstacle>, k: nat, c: SimulationConstants) -> int
    decreases k,
{
    if k == 0 {
        0
    } else {
        obs_sum_y(p, obs, (k - 1) as nat, c) + body_force_spec(
            p,
            obs[k - 1].position,
            c.agent_radius + obstacle_body_radius(obs[k - 1].shape),
            c,
        ).y
    }
}

/// A well-formed obstacle set: bounded positions and well-formed shapes.
pub open spec fn obstacles_wf(obs: Seq<Obstacle>) -> bool {
    forall|t: int| 0 <= t < obs.len() ==> (#[trigger] obs[t]).shape.wf() && bounded(
        obs[t].position,
        COORD_LIMIT as int,
    )
}

/// The obstacle sum grows by at most one pair force per obstacle.
pub proof fn lemma_obs_sum_bounded(p: Vec2Fix, obs: Seq<Obstacle>, k: nat, c: SimulationConstants)
    requires
        bounded(p, COORD_LIMIT as int),
        obstacles_wf(obs),
        k <= obs.len(),
        c.wf(),
    ensures
        -(k * PAIR_LIMIT) <= obs_sum_x(p, obs, k, c) <= k * PAIR_LIMIT,
        -(k * PAIR_LIMIT) <= obs_sum_y(p, obs, k, c) <= k * PAIR_LIMIT,
    decreases k,
{
    if k > 0 {
        lemma_obs_sum_bounded(p, obs, (k - 1) as nat, c);
        lemma_body_force_bounded(
            p,
            obs[k - 1].position,
            c.agent_radius + obstacle_body_radius(obs[k - 1].shape),
            c,
        );
    }
}

/// Accumulates into each agent the repulsion from every obstacle.
#[verifier::loop_isolation(false)]
pub fn obstacle_force(agents: &mut Vec<Agent>, obstacles: &Vec<Obstacle>, c: &SimulationConstants)
    requires
        c.wf(),
        obstacles_wf(obstacles@),
        obstacles@.len() <= MAX_BODIES,
        forall|k: int| 0 <= k < old(agents)@.len() ==> agent_bounds(#[trigger] old(agents)@[k]),
    ensures
        final(agents)@.len() == old(agents)@.len(),
        forall|k: int| 0 <= k < old(agents)@.len() ==> #[trigger] final(agents)@[k] == (Agent {
            obstacle_force: ObstacleForce(
                Vec2Fix {
                    x: obs_sum_x(old(agents)@[k].position, obstacles@, obstacles@.len(), *c) as i64,
                    y: obs_sum_y(old(agents)@[k].position, obstacles@, obstacles@.len(), *c) as i64,
                },
            ),
            ..old(agents)@[k]
        }),
        forall|k: int| 0 <= k < final(agents)@.len() ==> agent_bounds(#[trigger] final(agents)@[k]),
{
    let n = agents.len();
    let m = obstacles.len();
    let mut k: usize = 0;
    while k < n
        invariant
            0 <= k <= n,
            agents@.len() == n,
            m == obstacles@.len(),
            forall|t: int| 0 <= t < k ==> #[trigger] agents@[t] == (Agent {
                obstacle_force: ObstacleForce(
                    Vec2Fix {
                        x: obs_sum_x(old(agents)@[t].position, obstacles@, obstacles@.len(),
                            *c) as i64,
                        y: obs_sum_y(old(agents)@[t].position, obstacles@, obstacles@.len(),
                            *c) as i64,
                    },
                ),
                ..old(agents)@[t]
            }),
            forall|t: int| k <= t < n ==> #[trigger] agents@[t] == old(agents)@[t],
        decreases n - k,
    {
        let a = agents[k];
        let mut acc = Vec2Fix { x: 0, y: 0 };
        let mut j: usize = 0;
        while j < m
            invariant
                0 <= j <= m,
                m == obstacles@.len() <= MAX_BODIES,
                a == old(agents)@[k as int],
                acc.x == obs_sum_x(a.position, obstacles@, j as nat, *c),
                acc.y == obs_sum_y(a.position, obstacles@, j as nat, *c),
            decreases m - j,
        {
            proof {
                lemma_obs_sum_bounded(a.position, obstacles@, (j + 1) as nat, *c);
                lemma_body_force_bounded(
                    a.position,
                    obstacles@[j as int].position,
                    c.agent_radius + obstacle_body_radius(obstacles@[j as int].shape),
                    *c,
                );
            }
            let ob = &obstacles[j];
            let body_radius: i64 = match &ob.shape {
                Shape::Circle(r) => *r,
                Shape::Polygon(_) => 0,
            };
            let f = body_force(a.position, ob.position, c.agent_radius + body_radius, c);
            acc = Vec2Fix { x: acc.x + f.x, y: acc.y + f.y };
            j = j + 1;
        }
        proof {
            lemma_obs_sum_bounded(a.position, obstacles@, obstacles@.len(), *c);
        }
        let mut b = a;
        b.obstacle_force = ObstacleForce(acc);
        agents.set(k, b);
        k = k + 1;
    }
    proof {
        assert forall|t: int| 0 <= t < agents@.len() implies agent_bounds(
            #[trigger] agents@[t]) by {
            lemma_obs_sum_bounded(old(agents)@[t].position, obstacles@, obstacles@.len(), *c);
        }
    }
}

/// The pairwise force between two agents, at twice the agent radius.
pub open spec fn pair_force_spec(a: Agent, b: Agent, c: SimulationConstants) -> Vec2Fix {
    body_force_spec(a.position, b.position, 2 * c.agent_radius, c)
}

/// x component of the repulsion agent `k` receives from partners with a
/// larger index, among partners below `hi`.
pub open spec fn rep_sm_x(s: Seq<Agent>, c: SimulationConstants, k: int, hi: nat) -> int
    decreases hi,
{
    if hi == 0 || hi <= k + 1 {
        0
    } else {
        rep_sm_x(s, c, k, (hi - 1) as nat) + pair_force_spec(s[k], s[hi - 1], c).x
    }
}

/// y component of the same.
pub open spec fn rep_sm_y(s: Seq<Agent>, c: SimulationConstants, k: int, hi: nat) -> int
    decreases hi,
{
    if hi == 0 || hi <= k + 1 {
        0
    } else {
        rep_sm_y(s, c, k, (hi - 1) as nat) + pair_force_spec(s[k], s[hi - 1], c).y
    }
}

/// x component of the repulsion agent `k` receives from partners with a
/// smaller index below `hi`: the exact negation of the force the partner
/// received.
pub open spec fn rep_lg_x(s: Seq<Agent>, c: SimulationConstants, k: int, hi: nat) -> int
    decreases hi,
{
    if hi == 0 {
        0
    } else {
        rep_lg_x(s, c, k, (hi - 1) as nat) + if hi - 1 < k {
            -pair_force_spec(s[hi - 1], s[k], c).x
        } else {
            0int
        }
    }
}

/// y component of the same.
pub open spec fn rep_lg_y(s: Seq<Agent>, c: SimulationConstants, k: int, hi: nat) -> int
    decreases hi,
{
    if hi == 0 {
        0
    } else {
        rep_lg_y(s, c, k, (hi - 1) as nat) + if hi - 1 < k {
            -pair_force_spec(s[hi - 1], s[k], c).y
        } else {
            0int
        }
    }
}

/// The smaller-partner sums stop growing past agent `k`.
pub proof fn lemma_rep_lg_stable(s: Seq<Agent>, c: SimulationConstants, k: int, hi: nat)
    requires
        0 <= k <= hi,
    ensures
        rep_lg_x(s, c, k, hi) == rep_lg_x(s, c, k, k as nat),
        rep_lg_y(s, c, k, hi) == rep_lg_y(s, c, k, k as nat),
    decreases hi,
{
    if hi > k {
        lemma_rep_lg_stable(s, c, k, (hi - 1) as nat);
    }
}

/// A well-formed agent set: bounded as `agent_bounds`.
pub open spec fn agents_wf(s: Seq<Agent>) -> bool {
    forall|t: int| 0 <= t < s.len() ==> agent_bounds(#[trigger] s[t])
}

/// The partial sums are bounded by one pair force per contributing partner.
pub proof fn lemma_rep_sm_bounded(s: Seq<Agent>, c: SimulationConstants, k: int, hi: nat)
    requires
        agents_wf(s),
        c.wf(),
        0 <= k < s.len(),
        hi <= s.len(),
    ensures
        -((if hi > k + 1 { hi - k - 1 } else { 0int }) * PAIR_LIMIT) <= rep_sm_x(s, c, k, hi)
            <= (if hi > k + 1 { hi - k - 1 } else { 0int }) * PAIR_LIMIT,
        -((if hi > k + 1 { hi - k - 1 } else { 0int }) * PAIR_LIMIT) <= rep_sm_y(s, c, k, hi)
            <= (if hi > k + 1 { hi - k - 1 } else { 0int }) * PAIR_LIMIT,
    decreases hi,
{
    if hi > k + 1 {
        lemma_rep_sm_bounded(s, c, k, (hi - 1) as nat);
        lemma_body_force_bounded(s[k].position, s[hi - 1].position, 2 * c.agent_radius, c);
    }
}

/// The smaller-partner sums are bounded by one pair force per partner.
pub proof fn lemma_rep_lg_bounded(s: Seq<Agent>, c: SimulationConstants, k: int, hi: nat)
    requires
        agents_wf(s),
        c.wf(),
        0 <= k < s.len(),
        hi <= s.len(),
    ensures
        -((if hi <= k { hi as int } else { k }) * PAIR_LIMIT) <= rep_lg_x(s, c, k, hi)
            <= (if hi <= k { hi as int } else { k }) * PAIR_LIMIT,
        -((if hi <= k { hi as int } else { k }) * PAIR_LIMIT) <= rep_lg_y(s, c, k, hi)
            <= (if hi <= k { hi as int } else { k }) * PAIR_LIMIT,
    decreases hi,
{
    if hi > 0 {
        lemma_rep_lg_bounded(s, c, k, (hi - 1) as nat);
        if hi - 1 < k {
            lemma_body_force_bounded(s[hi - 1].position, s[k].position, 2 * c.agent_radius, c);
        }
    }
}

/// x component of the repulsion accumulated on agent `k` after the pair
/// scan has processed every pair `(a, b)` with `a < i`, plus the pairs
/// `(i, b)` with `b < j`.
pub open spec fn rep_acc_x(s: Seq<Agent>, c: SimulationConstants, k: int, i: int, j: int) -> int {
    if k < i {
        rep_sm_x(s, c, k, s.len()) + rep_lg_x(s, c, k, s.len())
    } else if k == i {
        rep_sm_x(s, c, k, (if j >= 0 { j } else { 0 }) as nat) + rep_lg_x(s, c, k, s.len())
    } else {
        rep_lg_x(s, c, k, (if i >= 0 { i } else { 0 }) as nat) + if i < k < j {
            -pair_force_spec(s[i], s[k], c).x
        } else {
            0int
        }
    }
}

/// y component of the same.
pub open spec fn rep_acc_y(s: Seq<Agent>, c: SimulationConstants, k: int, i: int, j: int) -> int {
    if k < i {
        rep_sm_y(s, c, k, s.len()) + rep_lg_y(s, c, k, s.len())
    } else if k == i {
        rep_sm_y(s, c, k, (if j >= 0 { j } else { 0 }) as nat) + rep_lg_y(s, c, k, s.len())
    } else {
        rep_lg_y(s, c, k, (if i >= 0 { i } else { 0 }) as nat) + if i < k < j {
            -pair_force_spec(s[i], s[k], c).y
        } else {
            0int
        }
    }
}

/// The accumulated repulsion never exceeds one pair force per partner.
pub proof fn lemma_rep_acc_bounded(s: Seq<Agent>, c: SimulationConstants, k: int, i: int, j: int)
    requires
        agents_wf(s),
        c.wf(),
        0 <= k < s.len(),
        s.len() <= MAX_BODIES,
        0 <= i,
        i < j,
        j <= s.len() + 1,
        k >= i ==> j <= s.len(),
    ensures
        -ACC_LIMIT <= rep_acc_x(s, c, k, i, j) <= ACC_LIMIT,
        -ACC_LIMIT <= rep_acc_y(s, c, k, i, j) <= ACC_LIMIT,
{
    lemma_rep_sm_bounded(s, c, k, s.len() as nat);
    lemma_rep_lg_bounded(s, c, k, s.len() as nat);
    if k == i {
        if j <= s.len() {
            lemma_rep_sm_bounded(s, c, k, j as nat);
        } else {
            lemma_rep_sm_bounded(s, c, k, s.len() as nat);
        }
    }
    if k > i {
        lemma_rep_lg_bounded(s, c, k, i as nat);
        if i < k < j {
            lemma_body_force_bounded(s[i].position, s[k].position, 2 * c.agent_radius, c);
        }
    }
    let ln = s.len() as int;
    if k < i {
        lemma_two_part_bound(rep_sm_x(s, c, k, s.len()), if ln > k + 1 { ln - k - 1 } else { 0 },
            rep_lg_x(s, c, k, s.len()), k);
        lemma_two_part_bound(rep_sm_y(s, c, k, s.len()), if ln > k + 1 { ln - k - 1 } else { 0 },
            rep_lg_y(s, c, k, s.len()), k);
    } else if k == i {
        lemma_rep_sm_bounded(s, c, k, j as nat);
        lemma_two_part_bound(rep_sm_x(s, c, k, j as nat), if j > k + 1 { j - k - 1 } else { 0 },
            rep_lg_x(s, c, k, s.len()), k);
        lemma_two_part_bound(rep_sm_y(s, c, k, j as nat), if j > k + 1 { j - k - 1 } else { 0 },
            rep_lg_y(s, c, k, s.len()), k);
    } else {
        let extra_x = if i < k < j {
            -pair_force_spec(s[i], s[k], c).x
        } else {
            0int
        };
        let extra_y = if i < k < j {
            -pair_force_spec(s[i], s[k], c).y
        } else {
            0int
        };
        if i < k < j {
            lemma_body_force_bounded(s[i].position, s[k].position, 2 * c.agent_radius, c);
        }
        lemma_two_part_bound(rep_lg_x(s, c, k, i as nat), if i <= k { i } else { k }, extra_x, 1);
        lemma_two_part_bound(rep_lg_y(s, c, k, i as nat), if i <= k { i } else { k }, extra_y, 1);
    }
}

/// The velocity an agent leaves the force-summation step with: the old
/// velocity plus the motivation force plus the body forces scaled down by
/// the agent mass.
pub open spec fn new_velocity_spec(a: Agent, c: SimulationConstants) -> Vec2Fix {
    Vec2Fix {
        x: (a.speed.0.x + a.motivation_force.0.x + tdiv(
            (a.obstacle_force.0.x + a.repulsive_force.0.x) * 1000,
            c.agent_mass as int,
        )) as i64,
        y: (a.speed.0.y + a.motivation_force.0.y + tdiv(
            (a.obstacle_force.0.y + a.repulsive_force.0.y) * 1000,
            c.agent_mass as int,
        )) as i64,
    }
}

/// Sums the three forces into each agent's velocity: the motivation force
/// directly, the obstacle and inter-agent repulsion divided by the agent
/// mass.
#[verifier::loop_isolation(false)]
pub fn apply_social_foces(agents: &mut Vec<Agent>, c: &SimulationConstants)
    requires
        c.wf(),
        agents_wf(old(agents)@),
    ensures
        final(agents)@.len() == old(agents)@.len(),
        forall|k: int| 0 <= k < old(agents)@.len() ==> #[trigger] final(agents)@[k] == (Agent {
            speed: Speed(new_velocity_spec(old(agents)@[k], *c)),
            ..old(agents)@[k]
        }),
        forall|k: int| 0 <= k < final(agents)@.len() ==> bounded(
            (#[trigger] final(agents)@[k]).speed.0,
            3_000_000_000_000_000_000,
        ),
{
    let n = agents.len();
    let mut k: usize = 0;
    while k < n
        invariant
            0 <= k <= n,
            agents@.len() == n,
            forall|t: int| 0 <= t < k ==> #[trigger] agents@[t] == (Agent {
                speed: Speed(new_velocity_spec(old(agents)@[t], *c)),
                ..old(agents)@[t]
            }),
            forall|t: int| 0 <= t < k ==> bounded(
                (#[trigger] agents@[t]).speed.0,
                3_000_000_000_000_000_000,
            ),
            forall|t: int| k <= t < n ==> #[trigger] agents@[t] == old(agents)@[t],
        decreases n - k,
    {
        let mut a = agents[k];
        proof {
            lemma_tdiv_coarse(
                ((a.obstacle_force.0.x + a.repulsive_force.0.x) as int) * 1000,
                c.agent_mass as int,
                2_048_000_000_000_000_000_000,
            );
            lemma_tdiv_coarse(
                ((a.obstacle_force.0.y + a.repulsive_force.0.y) as int) * 1000,
                c.agent_mass as int,
                2_048_000_000_000_000_000_000,
            );
        }
        let bx = ((a.obstacle_force.0.x as i128) + (a.repulsive_force.0.x as i128)) * 1000;
        let by = ((a.obstacle_force.0.y as i128) + (a.repulsive_force.0.y as i128)) * 1000;
        let vx = a.speed.0.x + a.motivation_force.0.x + (div_trunc_i128(bx, c.agent_mass as i128)
            as i64);
        let vy = a.speed.0.y + a.motivation_force.0.y + (div_trunc_i128(by, c.agent_mass as i128)
            as i64);
        a.speed = Speed(Vec2Fix { x: vx, y: vy });
        agents.set(k, a);
        k = k + 1;
    }
}

/// The velocity clamped to the desired speed: kept when already within it,
/// rescaled to exactly the desired speed otherwise (direction preserved).
pub open spec fn clamped_velocity_spec(v: Vec2Fix, speed: int) -> Vec2Fix {
    let l = fsqrt((v.x * v.x + v.y * v.y) as nat) as int;
    if l <= speed {
        v
    } else {
        scaled_vec_spec(v.x as int, v.y as int, speed)
    }
}

/// The speed clamp never exceeds the desired speed: the clamped velocity's
/// squared magnitude is at most `speed^2 + 2 * speed`, one fixed-point
/// rounding step past an exact magnitude of `speed`.
pub proof fn lemma_clamped_velocity_magnitude(v: Vec2Fix, speed: int)
    requires
        0 <= speed <= 1_000_000_000,
    ensures
        ({
            let w = clamped_velocity_spec(v, speed);
            (w.x * w.x) + (w.y * w.y) <= speed * speed + 2 * speed
        }),
{
    let n = (v.x * v.x + v.y * v.y) as nat;
    let l = fsqrt(n) as int;
    crate::geom::lemma_fsqrt_bounds(n);
    lemma_square_bound(v.x as int, if v.x < 0 { -(v.x as int) } else { v.x as int });
    lemma_square_bound(v.y as int, if v.y < 0 { -(v.y as int) } else { v.y as int });
    if l <= speed {
        assert((n as int) <= speed * speed + 2 * speed) by (nonlinear_arith)
            requires
                (n as int) < (l + 1) * (l + 1),
                0 <= l <= speed,
        {}
    } else {
        crate::geom::lemma_scaled_vec_magnitude(v.x as int, v.y as int, speed);
        let w = clamped_velocity_spec(v, speed);
        let m2 = (w.x * w.x) + (w.y * w.y);
        assert(m2 <= speed * speed + 2 * speed) by (nonlinear_arith)
            requires
                (m2 - speed * speed) * l <= 2 * (speed * speed),
                l >= speed + 1,
                0 <= speed,
        {}
    }
}

/// Clamps every agent's velocity magnitude to the desired speed.
#[verifier::loop_isolation(false)]
pub fn agent_max_speed_system(agents: &mut Vec<Agent>, c: &SimulationConstants)
    requires
        c.wf(),
        forall|k: int| 0 <= k < old(agents)@.len() ==> bounded(
            (#[trigger] old(agents)@[k]).speed.0,
            3_000_000_000_000_000_000,
        ),
    ensures
        final(agents)@.len() == old(agents)@.len(),
        forall|k: int| 0 <= k < old(agents)@.len() ==> #[trigger] final(agents)@[k] == (Agent {
            speed: Speed(clamped_velocity_spec(old(agents)@[k].speed.0, c.desired_speed as int)),
            ..old(agents)@[k]
        }),
        forall|k: int| 0 <= k < final(agents)@.len() ==> bounded(
            (#[trigger] final(agents)@[k]).speed.0,
            c.desired_speed as int,
        ),
{
    let n = agents.len();
    let mut k: usize = 0;
    while k < n
        invariant
            0 <= k <= n,
            agents@.len() == n,
            forall|t: int| 0 <= t < k ==> #[trigger] agents@[t] == (Agent {
                speed: Speed(
                    clamped_velocity_spec(old(agents)@[t].speed.0, c.desired_speed as int),
                ),
                ..old(agents)@[t]
            }),
            forall|t: int| 0 <= t < k ==> bounded(
                (#[trigger] agents@[t]).speed.0,
                c.desired_speed as int,
            ),
            forall|t: int| k <= t < n ==> #[trigger] agents@[t] == old(agents)@[t],
        decreases n - k,
    {
        let mut a = agents[k];
        let v = a.speed.0;
        proof {
            lemma_square_bound(v.x as int, 3_000_000_000_000_000_000);
            lemma_square_bound(v.y as int, 3_000_000_000_000_000_000);
            assert((3_000_000_000_000_000_000int) * 3_000_000_000_000_000_000
                < 0x8000_0000_0000_0000_0000_0000_0000_0000) by (nonlinear_arith)
            {}
        }
        let d2 = ((v.x as i128) * (v.x as i128) + (v.y as i128) * (v.y as i128)) as u128;
        let l = isqrt(d2);
        if l > c.desired_speed as u64 {
            let w = scale_to(v.x, v.y, c.desired_speed);
            a.speed = Speed(w);
            agents.set(k, a);
        } else {
            proof {
                let ax: int = if v.x < 0 {
                    -(v.x as int)
                } else {
                    v.x as int
                };
                let ay: int = if v.y < 0 {
                    -(v.y as int)
                } else {
                    v.y as int
                };
                assert(ax * ax == v.x * v.x && ay * ay == v.y * v.y) by (nonlinear_arith)
                    requires
                        ax == (if v.x < 0 { -(v.x as int) } else { v.x as int }),
                        ay == (if v.y < 0 { -(v.y as int) } else { v.y as int }),
                {}
                lemma_fsqrt_ge(d2 as nat, ax as nat);
                lemma_fsqrt_ge(d2 as nat, ay as nat);
            }
            agents.set(k, a);
        }
        k = k + 1;
    }
}

/// Integrates each agent's position by one step of its velocity.
#[verifier::loop_isolation(false)]
pub fn velocity_sytem(agents: &mut Vec<Agent>, c: &SimulationConstants)
    requires
        c.wf(),
        forall|k: int| 0 <= k < old(agents)@.len() ==> bounded(
            (#[trigger] old(agents)@[k]).position,
            COORD_LIMIT as int,
        ) && bounded(old(agents)@[k].speed.0, c.desired_speed as int),
    ensures
        final(agents)@.len() == old(agents)@.len(),
        forall|k: int| 0 <= k < old(agents)@.len() ==> #[trigger] final(agents)@[k] == (Agent {
            position: v_add_spec(old(agents)@[k].position, old(agents)@[k].speed.0),
            ..old(agents)@[k]
        }),
        forall|k: int| 0 <= k < final(agents)@.len() ==> bounded(
            (#[trigger] final(agents)@[k]).position,
            2 * COORD_LIMIT as int,
        ),
{
    let n = agents.len();
    let mut k: usize = 0;
    while k < n
        invariant
            0 <= k <= n,
            agents@.len() == n,
            forall|t: int| 0 <= t < k ==> #[trigger] agents@[t] == (Agent {
                position: v_add_spec(old(agents)@[t].position, old(agents)@[t].speed.0),
                ..old(agents)@[t]
            }),
            forall|t: int| 0 <= t < k ==> bounded(
                (#[trigger] agents@[t]).position,
                2 * COORD_LIMIT as int,
            ),
            forall|t: int| k <= t < n ==> #[trigger] agents@[t] == old(agents)@[t],
        decreases n - k,
    {
        let mut a = agents[k];
        a.position = Vec2Fix {
            x: a.position.x + a.speed.0.x,
            y: a.position.y + a.speed.0.y,
        };
        agents.set(k, a);
        k = k + 1;
    }
}

/// Zeroes every agent's velocity.
#[verifier::loop_isolation(false)]
pub fn start_speed_system(agents: &mut Vec<Agent>)
    ensures
        final(agents)@.len() == old(agents)@.len(),
        forall|k: int| 0 <= k < old(agents)@.len() ==> #[trigger] final(agents)@[k] == (Agent {
            speed: Speed(Vec2Fix { x: 0, y: 0 }),
            ..old(agents)@[k]
        }),
{
    let n = agents.len();
    let mut k: usize = 0;
    while k < n
        invariant
            0 <= k <= n,
            agents@.len() == n,
            forall|t: int| 0 <= t < k ==> #[trigger] agents@[t] == (Agent {
                speed: Speed(Vec2Fix { x: 0, y: 0 }),
                ..old(agents)@[t]
            }),
            forall|t: int| k <= t < n ==> #[trigger] agents@[t] == old(agents)@[t],
        decreases n - k,
    {
        let mut a = agents[k];
        a.speed = Speed(Vec2Fix { x: 0, y: 0 });
        agents.set(k, a);
        k = k + 1;
    }
}

/// A value clamped into an inclusive interval.
pub open spec fn clamp_spec(v: int, lo: int, hi: int) -> int {
    if v < lo {
        lo
    } else if v > hi {
        hi
    } else {
        v
    }
}

/// Clamps every agent's position into the simulation area.
#[verifier::loop_isolation(false)]
pub fn check_agent_position(agents: &mut Vec<Agent>, area: Rect)
    requires
        bounded(area.min, COORD_LIMIT as int),
        bounded(area.max, COORD_LIMIT as int),
        area.min.x <= area.max.x,
        area.min.y <= area.max.y,
        forall|k: int| 0 <= k < old(agents)@.len() ==> bounded(
            (#[trigger] old(agents)@[k]).position,
            2 * COORD_LIMIT as int,
        ),
    ensures
        final(agents)@.len() == old(agents)@.len(),
        forall|k: int| 0 <= k < old(agents)@.len() ==> #[trigger] final(agents)@[k] == (Agent {
            position: Vec2Fix {
                x: clamp_spec(old(agents)@[k].position.x as int, area.min.x as int,
                    area.max.x as int) as i64,
                y: clamp_spec(old(agents)@[k].position.y as int, area.min.y as int,
                    area.max.y as int) as i64,
            },
            ..old(agents)@[k]
        }),
        forall|k: int| 0 <= k < final(agents)@.len() ==> bounded(
            (#[trigger] final(agents)@[k]).position,
            COORD_LIMIT as int,
        ) && area.contains_spec(final(agents)@[k].position),
{
    let n = agents.len();
    let mut k: usize = 0;
    while k < n
        invariant
            0 <= k <= n,
            agents@.len() == n,
            forall|t: int| 0 <= t < k ==> #[trigger] agents@[t] == (Agent {
                position: Vec2Fix {
                    x: clamp_spec(old(agents)@[t].position.x as int, area.min.x as int,
                        area.max.x as int) as i64,
                    y: clamp_spec(old(agents)@[t].position.y as int, area.min.y as int,
                        area.max.y as int) as i64,
                },
                ..old(agents)@[t]
            }),
            forall|t: int| 0 <= t < k ==> bounded(
                (#[trigger] agents@[t]).position,
                COORD_LIMIT as int,
            ) && area.contains_spec(agents@[t].position),
            forall|t: int| k <= t < n ==> #[trigger] agents@[t] == old(agents)@[t],
        decreases n - k,
    {
        let mut a = agents[k];
        let px = if a.position.x < area.min.x {
            area.min.x
        } else if a.position.x > area.max.x {
            area.max.x
        } else {
            a.position.x
        };
        let py = if a.position.y < area.min.y {
            area.min.y
        } else if a.position.y > area.max.y {
            area.max.y
        } else {
            a.position.y
        };
        a.position = Vec2Fix { x: px, y: py };
        agents.set(k, a);
        k = k + 1;
    }
}

/// One agent's image under the motivation-relaxation step.
pub open spec fn motivated_agent(a: Agent, f: GridMap<Vec2Fix>) -> Agent {
    Agent {
        motivation_force: if sample_ok(f, a.position) {
            MotivationForce(crate::geom::v_sub_spec(sample_val(f, a.position), a.speed.0))
        } else {
            a.motivation_force
        },
        ..a
    }
}

/// One agent's image under the obstacle-repulsion step.
pub open spec fn obstacle_forced_agent(
    a: Agent,
    obs: Seq<Obstacle>,
    c: SimulationConstants,
) -> Agent {
    Agent {
        obstacle_force: ObstacleForce(
            Vec2Fix {
                x: obs_sum_x(a.position, obs, obs.len(), c) as i64,
                y: obs_sum_y(a.position, obs, obs.len(), c) as i64,
            },
        ),
        ..a
    }
}

/// The whole set's image under the pairwise-repulsion step.
pub open spec fn repulsed_agents(s: Seq<Agent>, c: SimulationConstants) -> Seq<Agent> {
    Seq::new(
        s.len(),
        |k: int| Agent {
            repulsive_force: RepulsiveForce(
                Vec2Fix {
                    x: (rep_sm_x(s, c, k, s.len()) + rep_lg_x(s, c, k, s.len())) as i64,
                    y: (rep_sm_y(s, c, k, s.len()) + rep_lg_y(s, c, k, s.len())) as i64,
                },
            ),
            ..s[k]
        },
    )
}

/// One agent's image under force summation into velocity.
pub open spec fn forces_summed_agent(a: Agent, c: SimulationConstants) -> Agent {
    Agent { speed: Speed(new_velocity_spec(a, c)), ..a }
}

/// One agent's image under the speed clamp.
pub open spec fn speed_clamped_agent(a: Agent, c: SimulationConstants) -> Agent {
    Agent { speed: Speed(clamped_velocity_spec(a.speed.0, c.desired_speed as int)), ..a }
}

/// One agent's image under position integration.
pub open spec fn integrated_agent(a: Agent) -> Agent {
    Agent { position: v_add_spec(a.position, a.speed.0), ..a }
}

/// One agent's image under the area clamp.
pub open spec fn area_clamped_agent(a: Agent, area: Rect) -> Agent {
    Agent {
        position: Vec2Fix {
            x: clamp_spec(a.position.x as int, area.min.x as int, area.max.x as int) as i64,
            y: clamp_spec(a.position.y as int, area.min.y as int, area.max.y as int) as i64,
        },
        ..a
    }
}

/// The agent set's image under one whole step, given the vector field the
/// step steers by: motivation relaxation, obstacle repulsion, pairwise
/// repulsion, force summation into velocity, the speed clamp, position
/// integration, the area clamp, then removal of arrived agents.
pub open spec fn stepped_agents(
    s: Seq<Agent>,
    f: GridMap<Vec2Fix>,
    obs: Seq<Obstacle>,
    tgs: Seq<Objective>,
    c: SimulationConstants,
    area: Rect,
) -> Seq<Agent> {
    let m1 = s.map_values(|a: Agent| motivated_agent(a, f));
    let m2 = m1.map_values(|a: Agent| obstacle_forced_agent(a, obs, c));
    let m3 = repulsed_agents(m2, c);
    let m4 = m3.map_values(|a: Agent| forces_summed_agent(a, c));
    let m5 = m4.map_values(|a: Agent| speed_clamped_agent(a, c));
    let m6 = m5.map_values(|a: Agent| integrated_agent(a));
    let m7 = m6.map_values(|a: Agent| area_clamped_agent(a, area));
    m7.filter(|a: Agent| !arrived_spec(a, tgs))
}

/// The agent has reached some target: its center lies within the target's
/// boundary (signed distance at most zero).
pub open spec fn arrived_spec(a: Agent, targets: Seq<Objective>) -> bool {
    exists|t: int| 0 <= t < targets.len() && crate::utils::signed_distance_spec(
        (#[trigger] targets[t]).shape,
        targets[t].position,
        a.position,
    ) <= 0
}

/// A well-formed target set: bounded positions and well-formed shapes.
pub open spec fn targets_wf(targets: Seq<Objective>) -> bool {
    forall|t: int| 0 <= t < targets.len() ==> (#[trigger] targets[t]).shape.wf() && bounded(
        targets[t].position,
        COORD_LIMIT as int,
    )
}

/// Removes every agent whose center has reached a target's boundary; the
/// survivors keep their order.
#[verifier::loop_isolation(false)]
pub fn agent_araived_at_destination_system(agents: &mut Vec<Agent>, targets: &Vec<Objective>)
    requires
        targets_wf(targets@),
        agents_wf(old(agents)@),
    ensures
        final(agents)@ == old(agents)@.filter(
            |a: Agent| !arrived_spec(a, targets@),
        ),
        agents_wf(final(agents)@),
        final(agents)@.len() <= old(agents)@.len(),
{
    let ghost pred = |a: Agent| !arrived_spec(a, targets@);
    let n = agents.len();
    let m = targets.len();
    let mut kept: Vec<Agent> = Vec::new();
    let mut k: usize = 0;
    while k < n
        invariant
            0 <= k <= n,
            agents@.len() == n,
            agents@ == old(agents)@,
            m == targets@.len(),
            kept@ == old(agents)@.take(k as int).filter(pred),
            pred == (|a: Agent| !arrived_spec(a, targets@)),
            agents_wf(kept@),
            kept@.len() <= k,
        decreases n - k,
    {
        let a = agents[k];
        let mut found = false;
        let mut t: usize = 0;
        while t < m
            invariant
                0 <= t <= m,
                m == targets@.len(),
                a == agents@[k as int],
                found <==> exists|u: int| 0 <= u < t && crate::utils::signed_distance_spec(
                    (#[trigger] targets@[u]).shape,
                    targets@[u].position,
                    a.position,
                ) <= 0,
            decreases m - t,
        {
            let target = &targets[t];
            let distance = crate::utils::signed_distance_to_sahpe(
                &target.shape,
                target.position,
                a.position,
            );
            if distance <= 0 {
                found = true;
            }
            t = t + 1;
        }
        proof {
            assert(found == arrived_spec(a, targets@));
            assert(old(agents)@.take(k + 1).drop_last() =~= old(agents)@.take(k as int));
            assert(old(agents)@.take(k + 1).last() == a);
            reveal_with_fuel(Seq::filter, 2);
        }
        if !found {
            kept.push(a);
        }
        k = k + 1;
    }
    proof {
        assert(old(agents)@.take(n as int) =~= old(agents)@);
    }
    *agents = kept;
}

/// Two sums, each bounded by a count of pair forces, stay within the
/// accumulation limit when the counts total at most the body cap.
proof fn lemma_two_part_bound(a: int, qa: int, b: int, qb: int)
    requires
        0 <= qa,
        0 <= qb,
        qa + qb <= 4096,
        -(qa * PAIR_LIMIT) <= a <= qa * PAIR_LIMIT,
        -(qb * PAIR_LIMIT) <= b <= qb * PAIR_LIMIT,
    ensures
        -ACC_LIMIT <= a + b <= ACC_LIMIT,
{
    assert(-ACC_LIMIT <= a + b <= ACC_LIMIT) by (nonlinear_arith)
        requires
            0 <= qa,
            0 <= qb,
            qa + qb <= 4096,
            -(qa * 250_000_000_000_000) <= a <= qa * 250_000_000_000_000,
            -(qb * 250_000_000_000_000) <= b <= qb * 250_000_000_000_000,
    {}
}

/// Visits every unordered pair of agents exactly once and accumulates the
/// pairwise repulsion: the computed force is applied to the first agent of
/// the pair and its exact negation to the second (Newton's third law).
#[verifier::loop_isolation(false)]
#[verifier::rlimit(100)]
pub fn apply_repulsive_forces(agents: &mut Vec<Agent>, c: &SimulationConstants)
    requires
        c.wf(),
        old(agents)@.len() <= MAX_BODIES,
        agents_wf(old(agents)@),
    ensures
        final(agents)@.len() == old(agents)@.len(),
        forall|k: int| 0 <= k < old(agents)@.len() ==> #[trigger] final(agents)@[k] == (Agent {
            repulsive_force: RepulsiveForce(
                Vec2Fix {
                    x: (rep_sm_x(old(agents)@, *c, k, old(agents)@.len()) + rep_lg_x(
                        old(agents)@,
                        *c,
                        k,
                        old(agents)@.len(),
                    )) as i64,
                    y: (rep_sm_y(old(agents)@, *c, k, old(agents)@.len()) + rep_lg_y(
                        old(agents)@,
                        *c,
                        k,
                        old(agents)@.len(),
                    )) as i64,
                },
            ),
            ..old(agents)@[k]
        }),
        agents_wf(final(agents)@),
{
    let n = agents.len();
    let ghost s0 = old(agents)@;
    let mut k: usize = 0;
    while k < n
        invariant
            0 <= k <= n,
            agents@.len() == n,
            forall|t: int| 0 <= t < k ==> #[trigger] agents@[t] == (Agent {
                repulsive_force: RepulsiveForce(Vec2Fix { x: 0, y: 0 }),
                ..s0[t]
            }),
            forall|t: int| k <= t < n ==> #[trigger] agents@[t] == s0[t],
        decreases n - k,
    {
        let mut a = agents[k];
        a.repulsive_force = RepulsiveForce(Vec2Fix { x: 0, y: 0 });
        agents.set(k, a);
        k = k + 1;
    }
    proof {
        assert forall|t: int| 0 <= t < n implies rep_acc_x(s0, *c, t, 0, 1) == 0 && rep_acc_y(
            s0,
            *c,
            t,
            0,
            1,
        ) == 0 by {
            if t == 0 {
                lemma_rep_lg_stable(s0, *c, 0, s0.len() as nat);
            }
        }
    }
    let mut i: usize = 0;
    while i < n
        invariant
            0 <= i <= n,
            agents@.len() == n,
            n == s0.len() <= MAX_BODIES,
            agents_wf(s0),
            c.wf(),
            forall|t: int| 0 <= t < n ==> #[trigger] agents@[t] == (Agent {
                repulsive_force: RepulsiveForce(
                    Vec2Fix {
                        x: rep_acc_x(s0, *c, t, i as int, i + 1) as i64,
                        y: rep_acc_y(s0, *c, t, i as int, i + 1) as i64,
                    },
                ),
                ..s0[t]
            }),
        decreases n - i,
    {
        let mut j: usize = i + 1;
        while j < n
            invariant
                0 <= i < n,
                i + 1 <= j <= n,
                agents@.len() == n,
                n == s0.len() <= MAX_BODIES,
                agents_wf(s0),
                c.wf(),
                forall|t: int| 0 <= t < n ==> #[trigger] agents@[t] == (Agent {
                    repulsive_force: RepulsiveForce(
                        Vec2Fix {
                            x: rep_acc_x(s0, *c, t, i as int, j as int) as i64,
                            y: rep_acc_y(s0, *c, t, i as int, j as int) as i64,
                        },
                    ),
                    ..s0[t]
                }),
            decreases n - j,
        {
            proof {
                lemma_rep_acc_bounded(s0, *c, i as int, i as int, j as int);
                lemma_rep_acc_bounded(s0, *c, j as int, i as int, j as int);
                lemma_rep_acc_bounded(s0, *c, i as int, i as int, j + 1);
                lemma_rep_acc_bounded(s0, *c, j as int, i as int, j + 1);
                lemma_body_force_bounded(s0[i as int].position, s0[j as int].position,
                    2 * c.agent_radius, *c);
            }
            let f = body_force(agents[i].position, agents[j].position, 2 * c.agent_radius, c);
            let mut ai = agents[i];
            ai.repulsive_force = RepulsiveForce(
                Vec2Fix {
                    x: ai.repulsive_force.0.x + f.x,
                    y: ai.repulsive_force.0.y + f.y,
                },
            );
            agents.set(i, ai);
            let mut aj = agents[j];
            aj.repulsive_force = RepulsiveForce(
                Vec2Fix {
                    x: aj.repulsive_force.0.x - f.x,
                    y: aj.repulsive_force.0.y - f.y,
                },
            );
            agents.set(j, aj);
            proof {
                assert forall|t: int| 0 <= t < n implies #[trigger] agents@[t] == (Agent {
                    repulsive_force: RepulsiveForce(
                        Vec2Fix {
                            x: rep_acc_x(s0, *c, t, i as int, j + 1) as i64,
                            y: rep_acc_y(s0, *c, t, i as int, j + 1) as i64,
                        },
                    ),
                    ..s0[t]
                }) by {
                    lemma_rep_acc_bounded(s0, *c, t, i as int, j as int);
                    lemma_rep_acc_bounded(s0, *c, t, i as int, j + 1);
                }
            }
            j = j + 1;
        }
        proof {
            assert forall|t: int| 0 <= t < n implies rep_acc_x(s0, *c, t, i as int, n as int)
                == rep_acc_x(s0, *c, t, i + 1, i + 2) && rep_acc_y(s0, *c, t, i as int, n as int)
                == rep_acc_y(s0, *c, t, i + 1, i + 2) by {
                if t == i + 1 {
                    lemma_rep_lg_stable(s0, *c, t, n as nat);
                    assert(rep_lg_x(s0, *c, t, (i + 1) as nat) == rep_lg_x(s0, *c, t,
                        (i as int) as nat) + if i < t {
                        -pair_force_spec(s0[i as int], s0[t], *c).x
                    } else {
                        0int
                    });
                    lemma_rep_lg_stable(s0, *c, t, (i + 1) as nat);
                } else if t > i + 1 {
                    assert(rep_lg_x(s0, *c, t, (i + 1) as nat) == rep_lg_x(s0, *c, t,
                        (i as int) as nat) + if i < t {
                        -pair_force_spec(s0[i as int], s0[t], *c).x
                    } else {
                        0int
                    });
                }
            }
        }
        i = i + 1;
    }
    proof {
        assert forall|t: int| 0 <= t < n implies agent_bounds(#[trigger] agents@[t]) by {
            lemma_rep_acc_bounded(s0, *c, t, n as int, n as int + 1);
        }
    }
}

} // verus!
