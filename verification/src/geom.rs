//! Fixed-point plane geometry: vectors, rectangles, and the integer
//! square-root and division helpers the simulation arithmetic rests on.

use vstd::prelude::*;
use vstd::arithmetic::div_mod::{lemma_fundamental_div_mod, lemma_fundamental_div_mod_converse};

verus! {

/// One whole world unit in the fixed-point encoding (three fractional digits).
pub const FIX_ONE: i64 = 1000;

/// Largest world-coordinate magnitude the simulation admits.
pub const COORD_LIMIT: i64 = 1_000_000_000;

/// Truncating division (rounds toward zero), the rounding rule used for all
/// fixed-point quotients.  Agrees with `/` on `int` for a non-negative
/// dividend; `b` is expected positive.
pub open spec fn tdiv(a: int, b: int) -> int {
    if a >= 0 {
        a / b
    } else {
        -((-a) / b)
    }
}

/// Floor of the real square root of `n`.
pub open spec fn fsqrt(n: nat) -> nat
    decreases n,
{
    if n == 0 {
        0
    } else {
        let r = fsqrt((n - 1) as nat);
        if (r + 1) * (r + 1) <= n {
            r + 1
        } else {
            r
        }
    }
}

/// Ceiling of the real square root of `n`.
pub open spec fn csqrt(n: nat) -> nat {
    if fsqrt(n) * fsqrt(n) == n {
        fsqrt(n)
    } else {
        fsqrt(n) + 1
    }
}

/// `fsqrt` is exactly the floor of the square root.
pub proof fn lemma_fsqrt_bounds(n: nat)
    ensures
        fsqrt(n) * fsqrt(n) <= n,
        n < (fsqrt(n) + 1) * (fsqrt(n) + 1),
    decreases n,
{
    if n > 0 {
        lemma_fsqrt_bounds((n - 1) as nat);
        let r = fsqrt((n - 1) as nat);
        assert(r * r <= n - 1 < (r + 1) * (r + 1));
        if (r + 1) * (r + 1) <= n {
            assert(fsqrt(n) == r + 1);
            assert((r + 1) * (r + 1) < (r + 2) * (r + 2)) by (nonlinear_arith)
                requires r >= 0,
            {}
            assert(n <= (r + 1) * (r + 1));
            assert((fsqrt(n) + 1) * (fsqrt(n) + 1) == (r + 2) * (r + 2));
        } else {
            assert(fsqrt(n) == r);
            assert((fsqrt(n) + 1) * (fsqrt(n) + 1) == (r + 1) * (r + 1));
        }
    } else {
        let s = fsqrt(n);
        assert(s == 0);
        assert((s + 1) * (s + 1) == 1) by (nonlinear_arith)
            requires s == 0nat,
        {}
    }
}

/// Any value squeezed between consecutive squares is the floor square root.
pub proof fn lemma_fsqrt_unique(n: nat, r: nat)
    requires
        r * r <= n,
        n < (r + 1) * (r + 1),
    ensures
        r == fsqrt(n),
{
    lemma_fsqrt_bounds(n);
    let s = fsqrt(n);
    if r < s {
        assert((r + 1) * (r + 1) <= s * s) by (nonlinear_arith)
            requires r + 1 <= s,
        {}
    }
    if s < r {
        assert((s + 1) * (s + 1) <= r * r) by (nonlinear_arith)
            requires s + 1 <= r,
        {}
    }
}

/// Floor square root by binary search.
pub fn isqrt(n: u128) -> (r: u64)
    ensures
        r as nat == fsqrt(n as nat),
{
    let mut lo: u128 = 0;
    let mut hi: u128 = 0x1_0000_0000_0000_0000;
    proof {
        assert((hi as int) * (hi as int) > n as int) by (nonlinear_arith)
            requires hi == 0x1_0000_0000_0000_0000int, n < 0x1_0000_0000_0000_0000_0000_0000_0000_0000int,
        {}
    }
    if n < hi {
        hi = n + 1;
        proof {
            assert((hi as int) * (hi as int) > n as int) by (nonlinear_arith)
                requires hi == n as int + 1, n >= 0,
            {}
        }
    }
    while hi - lo > 1
        invariant
            lo < hi <= 0x1_0000_0000_0000_0000,
            (lo as int) * (lo as int) <= n as int,
            (n as int) < (hi as int) * (hi as int),
        decreases hi - lo,
    {
        let mid = lo + (hi - lo) / 2;
        assert((mid as int) * (mid as int) < 0x1_0000_0000_0000_0000_0000_0000_0000_0000)
            by (nonlinear_arith)
            requires mid < 0x1_0000_0000_0000_0000int,
        {}
        if mid * mid <= n {
            lo = mid;
        } else {
            hi = mid;
        }
    }
    proof {
        lemma_fsqrt_unique(n as nat, lo as nat);
    }
    lo as u64
}

/// Flooring division of `a` by a positive `b` (rounds toward minus infinity),
/// matching `int` division in specifications.
pub fn div_floor(a: i64, b: i64) -> (q: i64)
    requires
        1 <= b,
        -0x4000_0000_0000_0000 < a < 0x4000_0000_0000_0000,
    ensures
        q as int == a as int / b as int,
{
    if a >= 0 {
        let q = (a as u64) / (b as u64);
        q as i64
    } else {
        let m = (-a) as u64;
        let q0 = m / (b as u64);
        let r = m % (b as u64);
        proof {
            vstd::arithmetic::div_mod::lemma_fundamental_div_mod(m as int, b as int);
        }
        if r == 0 {
            proof {
                assert(a as int == (-(q0 as int)) * (b as int) + 0) by (nonlinear_arith)
                    requires a as int == -(m as int), m as int == (b as int) * (q0 as int) + 0,
                {}
                lemma_fundamental_div_mod_converse(
                    a as int,
                    b as int,
                    -(q0 as int),
                    0,
                );
            }
            -(q0 as i64)
        } else {
            proof {
                assert(a as int == (-(q0 as int) - 1) * (b as int) + ((b as int) - (r as int)))
                    by (nonlinear_arith)
                    requires
                        a as int == -(m as int),
                        m as int == (b as int) * (q0 as int) + (r as int),
                {}
                lemma_fundamental_div_mod_converse(
                    a as int,
                    b as int,
                    -(q0 as int) - 1,
                    b - r,
                );
            }
            -(q0 as i64) - 1
        }
    }
}

/// Truncating division of `a` by a positive `b` (rounds toward zero),
/// matching `tdiv` in specifications.
pub fn div_trunc(a: i64, b: i64) -> (q: i64)
    requires
        1 <= b,
        a != i64::MIN,
    ensures
        q as int == tdiv(a as int, b as int),
{
    if a >= 0 {
        let q = (a as u64) / (b as u64);
        q as i64
    } else {
        let m = (-a) as u64;
        let q0 = m / (b as u64);
        -(q0 as i64)
    }
}

/// A square is non-negative, and bounded values have bounded squares.
pub proof fn lemma_square_bound(a: int, b: int)
    requires
        -b <= a <= b,
    ensures
        0 <= a * a <= b * b,
{
    assert(0 <= a * a <= b * b) by (nonlinear_arith)
        requires -b <= a <= b,
    {}
}

/// A value whose square is at most `b * b` is at most `b`.
pub proof fn lemma_fsqrt_le(n: nat, b: nat)
    requires
        n <= b * b,
    ensures
        fsqrt(n) <= b,
{
    lemma_fsqrt_bounds(n);
    if fsqrt(n) > b {
        assert((b + 1) * (b + 1) <= fsqrt(n) * fsqrt(n) && b * b < (b + 1) * (b + 1))
            by (nonlinear_arith)
            requires b + 1 <= fsqrt(n),
        {}
    }
}

/// A value whose square is at most `n` is at most the floor square root.
pub proof fn lemma_fsqrt_ge(n: nat, b: nat)
    requires
        b * b <= n,
    ensures
        b <= fsqrt(n),
{
    lemma_fsqrt_bounds(n);
    if fsqrt(n) < b {
        assert(b * b >= (fsqrt(n) + 1) * (fsqrt(n) + 1)) by (nonlinear_arith)
            requires fsqrt(n) + 1 <= b,
        {}
    }
}

/// Truncating division is odd in its dividend.
pub proof fn lemma_tdiv_neg(a: int, b: int)
    requires
        1 <= b,
    ensures
        tdiv(-a, b) == -tdiv(a, b),
{
}

/// Truncating division by a positive divisor shrinks magnitude and keeps
/// sign.
pub proof fn lemma_tdiv_bound(a: int, b: int)
    requires
        1 <= b,
    ensures
        a >= 0 ==> 0 <= tdiv(a, b) <= a,
        a < 0 ==> a <= tdiv(a, b) <= 0,
{
    if a >= 0 {
        vstd::arithmetic::div_mod::lemma_div_pos_is_pos(a, b);
        vstd::arithmetic::div_mod::lemma_div_nonincreasing(a, b);
    } else {
        vstd::arithmetic::div_mod::lemma_div_pos_is_pos(-a, b);
        vstd::arithmetic::div_mod::lemma_div_nonincreasing(-a, b);
    }
}

/// Product of two moderately sized values, with the overflow proof built in.
pub fn mul_i64(a: i64, b: i64) -> (r: i64)
    requires
        -0x8000_0000 <= a <= 0x8000_0000,
        -0x8000_0000 <= b <= 0x8000_0000,
    ensures
        r == a * b,
{
    proof {
        assert(-0x4000_0000_0000_0001 <= (a as int) * (b as int) <= 0x4000_0000_0000_0000)
            by (nonlinear_arith)
            requires
                -0x8000_0000 <= a as int <= 0x8000_0000,
                -0x8000_0000 <= b as int <= 0x8000_0000,
        {}
    }
    a * b
}

/// Product of two wide values (up to 2^52 in magnitude), exact.
pub fn mul_i128(a: i128, b: i128) -> (r: i128)
    requires
        -0x10_0000_0000_0000 <= a <= 0x10_0000_0000_0000,
        -0x10_0000_0000_0000 <= b <= 0x10_0000_0000_0000,
    ensures
        r == a * b,
        -0x100_0000_0000_0000_0000_0000_0000 <= r <= 0x100_0000_0000_0000_0000_0000_0000,
{
    proof {
        assert(-0x100_0000_0000_0000_0000_0000_0000 <= (a as int) * (b as int)
            <= 0x100_0000_0000_0000_0000_0000_0000) by (nonlinear_arith)
            requires
                -0x10_0000_0000_0000 <= a as int <= 0x10_0000_0000_0000,
                -0x10_0000_0000_0000 <= b as int <= 0x10_0000_0000_0000,
        {}
    }
    a * b
}

/// Truncating division on wide values, matching `tdiv` in specifications.
pub fn div_trunc_i128(a: i128, b: i128) -> (q: i128)
    requires
        1 <= b,
        a != i128::MIN,
    ensures
        q as int == tdiv(a as int, b as int),
{
    if a >= 0 {
        let q = (a as u128) / (b as u128);
        q as i128
    } else {
        let m = (-a) as u128;
        let q0 = m / (b as u128);
        -(q0 as i128)
    }
}

/// A plane vector or point in fixed-point world coordinates.
#[derive(Clone, Copy, Debug, PartialEq, Eq, Structural)]
pub struct Vec2Fix {
    pub x: i64,
    pub y: i64,
}

/// Both components of `v` are at most `b` in magnitude.
pub open spec fn bounded(v: Vec2Fix, b: int) -> bool {
    -b <= v.x <= b && -b <= v.y <= b
}

impl Vec2Fix {
    pub fn new(x: i64, y: i64) -> (v: Vec2Fix)
        ensures
            v.x == x,
            v.y == y,
    {
        Vec2Fix { x, y }
    }

    pub fn zero() -> (v: Vec2Fix)
        ensures
            v.x == 0,
            v.y == 0,
    {
        Vec2Fix { x: 0, y: 0 }
    }

    pub fn plus(self, other: Vec2Fix) -> (v: Vec2Fix)
        requires
            i64::MIN <= self.x + other.x <= i64::MAX,
            i64::MIN <= self.y + other.y <= i64::MAX,
        ensures
            v.x == self.x + other.x,
            v.y == self.y + other.y,
    {
        Vec2Fix { x: self.x + other.x, y: self.y + other.y }
    }

    pub fn minus(self, other: Vec2Fix) -> (v: Vec2Fix)
        requires
            i64::MIN <= self.x - other.x <= i64::MAX,
            i64::MIN <= self.y - other.y <= i64::MAX,
        ensures
            v.x == self.x - other.x,
            v.y == self.y - other.y,
    {
        Vec2Fix { x: self.x - other.x, y: self.y - other.y }
    }

    pub fn negate(self) -> (v: Vec2Fix)
        requires
            self.x != i64::MIN,
            self.y != i64::MIN,
        ensures
            v.x == -self.x,
            v.y == -self.y,
    {
        Vec2Fix { x: -self.x, y: -self.y }
    }

    /// Squared Euclidean length, exact.
    pub fn len_sq(self) -> (r: u128)
        requires
            -0x4000_0000_0000_0000 < self.x < 0x4000_0000_0000_0000,
            -0x4000_0000_0000_0000 < self.y < 0x4000_0000_0000_0000,
        ensures
            r as int == self.x * self.x + self.y * self.y,
    {
        proof {
            assert(self.x * self.x < 0x4000_0000_0000_0000_0000_0000_0000_0000
                && self.x * self.x >= 0) by (nonlinear_arith)
                requires -0x4000_0000_0000_0000 < self.x < 0x4000_0000_0000_0000,
            {}
            assert(self.y * self.y < 0x4000_0000_0000_0000_0000_0000_0000_0000
                && self.y * self.y >= 0) by (nonlinear_arith)
                requires -0x4000_0000_0000_0000 < self.y < 0x4000_0000_0000_0000,
            {}
        }
        let xx = (self.x as i128) * (self.x as i128);
        let yy = (self.y as i128) * (self.y as i128);
        (xx + yy) as u128
    }

    /// Euclidean length, rounded down to the nearest fixed-point step.
    pub fn length(self) -> (r: u64)
        requires
            -0x4000_0000_0000_0000 < self.x < 0x4000_0000_0000_0000,
            -0x4000_0000_0000_0000 < self.y < 0x4000_0000_0000_0000,
        ensures
            r as nat == fsqrt((self.x * self.x + self.y * self.y) as nat),
    {
        let sq = self.len_sq();
        isqrt(sq)
    }
}

/// A vector rescaled to the given length: the fixed-point image of
/// `target * v / |v|`, or the zero vector when the length rounds to zero
/// (a degenerate input degrades to zero, never to an undefined direction).
pub open spec fn scaled_vec_spec(x: int, y: int, target: int) -> Vec2Fix {
    let l = fsqrt((x * x + y * y) as nat) as int;
    if l == 0 {
        Vec2Fix { x: 0, y: 0 }
    } else {
        Vec2Fix { x: tdiv(x * target, l) as i64, y: tdiv(y * target, l) as i64 }
    }
}

/// Rescaling never exceeds the target length, componentwise, and a
/// zero-length input yields the zero vector.
pub proof fn lemma_scaled_vec_bounded(x: int, y: int, target: int)
    requires
        0 <= target,
    ensures
        -target <= scaled_vec_spec(x, y, target).x <= target,
        -target <= scaled_vec_spec(x, y, target).y <= target,
        fsqrt((x * x + y * y) as nat) == 0 ==> scaled_vec_spec(x, y, target) == (Vec2Fix {
            x: 0,
            y: 0,
        }),
{
    lemma_square_bound(x, if x < 0 { -x } else { x });
    lemma_square_bound(y, if y < 0 { -y } else { y });
    let n = (x * x + y * y) as nat;
    let l = fsqrt(n) as int;
    if l != 0 {
        let ax = if x < 0 { -x } else { x };
        let ay = if y < 0 { -y } else { y };
        assert(ax * ax == x * x && ay * ay == y * y && 0 <= x * x && 0 <= y * y)
            by (nonlinear_arith)
            requires
                ax == (if x < 0 { -x } else { x }),
                ay == (if y < 0 { -y } else { y }),
        {}
        lemma_fsqrt_ge(n, ax as nat);
        lemma_fsqrt_ge(n, ay as nat);
        assert(ax <= l && ay <= l);
        lemma_scale_frac_bound(x, target, l);
        lemma_scale_frac_bound(y, target, l);
    }
}

/// `|tdiv(a * t, l)| <= t` whenever `|a| <= l`.
pub proof fn lemma_scale_frac_bound(a: int, t: int, l: int)
    requires
        0 <= t,
        1 <= l,
        -l <= a <= l,
    ensures
        -t <= tdiv(a * t, l) <= t,
{
    assert(-(l * t) <= a * t <= l * t) by (nonlinear_arith)
        requires -l <= a <= l, 0 <= t,
    {}
    vstd::arithmetic::div_mod::lemma_div_by_multiple(t, l);
    assert((t * l) / l == t);
    assert(l * t == t * l) by (nonlinear_arith) {}
    if a * t >= 0 {
        vstd::arithmetic::div_mod::lemma_div_is_ordered(a * t, l * t, l);
        lemma_tdiv_bound(a * t, l);
    } else {
        vstd::arithmetic::div_mod::lemma_div_is_ordered(-(a * t), l * t, l);
        lemma_tdiv_bound(a * t, l);
    }
}

/// Componentwise vector sum, as the fixed-point image.
pub open spec fn v_add_spec(a: Vec2Fix, b: Vec2Fix) -> Vec2Fix {
    Vec2Fix { x: (a.x + b.x) as i64, y: (a.y + b.y) as i64 }
}

/// Componentwise vector difference, as the fixed-point image.
pub open spec fn v_sub_spec(a: Vec2Fix, b: Vec2Fix) -> Vec2Fix {
    Vec2Fix { x: (a.x - b.x) as i64, y: (a.y - b.y) as i64 }
}

/// Componentwise vector negation, as the fixed-point image.
pub open spec fn v_neg_spec(a: Vec2Fix) -> Vec2Fix {
    Vec2Fix { x: (-a.x) as i64, y: (-a.y) as i64 }
}

/// How close rescaling comes to the target length: writing `l` for the
/// floor length of the input and `m2` for the squared magnitude of the
/// output, the output is never shorter than `target^2 - 4 * target` and
/// overshoots by at most `2 * target^2 / l`.
#[verifier::rlimit(100)]
pub proof fn lemma_scaled_vec_magnitude(x: int, y: int, target: int)
    requires
        0 <= target <= 2_000_000_000,
        1 <= fsqrt((x * x + y * y) as nat),
    ensures
        ({
            let l = fsqrt((x * x + y * y) as nat) as int;
            let v = scaled_vec_spec(x, y, target);
            let m2 = v.x * v.x + v.y * v.y;
            &&& (m2 - target * target) * l <= 2 * (target * target)
            &&& m2 >= target * target - 4 * target
        }),
{
    lemma_square_bound(x, if x < 0 { -x } else { x });
    lemma_square_bound(y, if y < 0 { -y } else { y });
    let n = (x * x + y * y) as nat;
    let l = fsqrt(n) as int;
    lemma_fsqrt_bounds(n);
    let ax = if x < 0 { -x } else { x };
    let ay = if y < 0 { -y } else { y };
    assert(ax * ax == x * x && ay * ay == y * y && 0 <= x * x && 0 <= y * y)
        by (nonlinear_arith)
        requires
            ax == (if x < 0 { -x } else { x }),
            ay == (if y < 0 { -y } else { y }),
    {}
    lemma_fsqrt_ge(n, ax as nat);
    lemma_fsqrt_ge(n, ay as nat);
    lemma_scale_frac_bound(x, target, l);
    lemma_scale_frac_bound(y, target, l);
    lemma_scaled_vec_bounded(x, y, target);
    let v = scaled_vec_spec(x, y, target);
    let tx = tdiv(x * target, l);
    let ty = tdiv(y * target, l);
    assert(v.x == tx && v.y == ty);
    lemma_fundamental_div_mod(ax * target, l);
    lemma_fundamental_div_mod(ay * target, l);
    lemma_div_pos_is_pos_local(ax * target, l);
    lemma_div_pos_is_pos_local(ay * target, l);
    let qx = (ax * target) / l;
    let qy = (ay * target) / l;
    let rx = (ax * target) % l;
    let ry = (ay * target) % l;
    // the scaled components carry the quotients' magnitudes
    assert(tx == qx || tx == -qx) by {
        if x >= 0 {
            assert(x * target >= 0) by (nonlinear_arith)
                requires x >= 0, target >= 0,
            {}
        } else {
            assert(ax * target == -(x * target) && x * target <= 0) by (nonlinear_arith)
                requires ax == -x, target >= 0, x < 0,
            {}
        }
    }
    assert(ty == qy || ty == -qy) by {
        if y >= 0 {
            assert(y * target >= 0) by (nonlinear_arith)
                requires y >= 0, target >= 0,
            {}
        } else {
            assert(ay * target == -(y * target) && y * target <= 0) by (nonlinear_arith)
                requires ay == -y, target >= 0, y < 0,
            {}
        }
    }
    assert(tx * tx == qx * qx && ty * ty == qy * qy) by (nonlinear_arith)
        requires
            tx == qx || tx == -qx,
            ty == qy || ty == -qy,
    {}
    // quotient squares against the exact products
    assert((ax * target) * (ax * target) - 2 * ((ax * target) * l) <= (qx * qx) * (l * l)
        <= (ax * target) * (ax * target)) by (nonlinear_arith)
        requires
            ax * target == l * qx + rx,
            0 <= rx < l,
            0 <= ax * target,
            1 <= l,
            0 <= qx,
    {}
    assert((ay * target) * (ay * target) - 2 * ((ay * target) * l) <= (qy * qy) * (l * l)
        <= (ay * target) * (ay * target)) by (nonlinear_arith)
        requires
            ay * target == l * qy + ry,
            0 <= ry < l,
            0 <= ay * target,
            1 <= l,
            0 <= qy,
    {}
    let m2 = tx * tx + ty * ty;
    assert((ax * target) * (ax * target) + (ay * target) * (ay * target) == (ax * ax + ay * ay)
        * (target * target)) by (nonlinear_arith)
    {}
    assert(ax * ax + ay * ay == n as int);
    assert(ax * ax + ay * ay <= l * l + 2 * l && ax * ax + ay * ay >= l * l)
        by (nonlinear_arith)
        requires
            ax * ax + ay * ay < (l + 1) * (l + 1),
            l * l <= ax * ax + ay * ay,
    {}
    // upper bound
    assert((ax * ax + ay * ay) * (target * target) <= (l * l + 2 * l) * (target * target))
        by (nonlinear_arith)
        requires
            ax * ax + ay * ay <= l * l + 2 * l,
            0 <= target,
    {}
    assert(m2 * (l * l) == (qx * qx) * (l * l) + (qy * qy) * (l * l)) by (nonlinear_arith)
        requires m2 == qx * qx + qy * qy,
    {}
    assert((m2 - target * target) * l <= 2 * (target * target)) by (nonlinear_arith)
        requires
            m2 * (l * l) <= (l * l + 2 * l) * (target * target),
            1 <= l,
    {}
    // lower bound
    assert(2 * ((ax * target) * l) + 2 * ((ay * target) * l) <= 4 * ((l * l) * target))
        by (nonlinear_arith)
        requires
            0 <= ax <= l,
            0 <= ay <= l,
            0 <= target,
    {}
    assert((ax * ax + ay * ay) * (target * target) >= (l * l) * (target * target))
        by (nonlinear_arith)
        requires
            ax * ax + ay * ay >= l * l,
            0 <= target,
    {}
    assert(m2 * (l * l) >= (l * l) * (target * target) - 4 * ((l * l) * target));
    assert(m2 >= target * target - 4 * target) by (nonlinear_arith)
        requires
            m2 * (l * l) >= (l * l) * (target * target) - 4 * ((l * l) * target),
            1 <= l,
    {}
}

/// A non-negative dividend keeps a non-negative quotient.
proof fn lemma_div_pos_is_pos_local(a: int, b: int)
    requires
        0 <= a,
        1 <= b,
    ensures
        0 <= a / b,
{
    vstd::arithmetic::div_mod::lemma_div_pos_is_pos(a, b);
}

/// Rescaling is odd: flipping the input vector flips the output.
pub proof fn lemma_scaled_vec_neg(x: int, y: int, target: int)
    requires
        0 <= target <= 2_000_000_000,
        -0x7fff_ffff_ffff_ffff <= x <= 0x7fff_ffff_ffff_ffff,
        -0x7fff_ffff_ffff_ffff <= y <= 0x7fff_ffff_ffff_ffff,
    ensures
        scaled_vec_spec(-x, -y, target) == v_neg_spec(scaled_vec_spec(x, y, target)),
{
    lemma_scaled_vec_bounded(x, y, target);
    lemma_scaled_vec_bounded(-x, -y, target);
    assert((-x) * (-x) == x * x && (-y) * (-y) == y * y) by (nonlinear_arith) {}
    let n = (x * x + y * y) as nat;
    let l = fsqrt(n) as int;
    assert(fsqrt(((-x) * (-x) + (-y) * (-y)) as nat) == fsqrt(n));
    if l != 0 {
        assert((-x) * target == -(x * target) && (-y) * target == -(y * target))
            by (nonlinear_arith)
        {}
        lemma_tdiv_neg(x * target, l);
        lemma_tdiv_neg(y * target, l);
        let nx = tdiv(x * target, l);
        let ny = tdiv(y * target, l);
        let ax = if x < 0 { -x } else { x };
        let ay = if y < 0 { -y } else { y };
        assert(ax * ax == x * x && ay * ay == y * y && 0 <= x * x && 0 <= y * y)
            by (nonlinear_arith)
            requires
                ax == (if x < 0 { -x } else { x }),
                ay == (if y < 0 { -y } else { y }),
        {}
        lemma_fsqrt_ge(n, ax as nat);
        lemma_fsqrt_ge(n, ay as nat);
        lemma_scale_frac_bound(x, target, l);
        lemma_scale_frac_bound(y, target, l);
        assert(scaled_vec_spec(x, y, target) == Vec2Fix { x: nx as i64, y: ny as i64 });
        assert(tdiv((-x) * target, l) == -nx && tdiv((-y) * target, l) == -ny);
        assert(scaled_vec_spec(-x, -y, target) == Vec2Fix {
            x: (-nx) as i64,
            y: (-ny) as i64,
        });
    }
}

/// Rescales the vector `(x, y)` to length `target` (componentwise floor
/// toward zero); the zero vector stays zero.
pub fn scale_to(x: i64, y: i64, target: i64) -> (v: Vec2Fix)
    requires
        x != i64::MIN,
        y != i64::MIN,
        0 <= target <= 2_000_000_000,
    ensures
        v == scaled_vec_spec(x as int, y as int, target as int),
        -target <= v.x <= target,
        -target <= v.y <= target,
{
    proof {
        lemma_scaled_vec_bounded(x as int, y as int, target as int);
        assert(0 <= (x as int) * (x as int) < 0x4000_0000_0000_0000_0000_0000_0000_0000
            && 0 <= (y as int) * (y as int) < 0x4000_0000_0000_0000_0000_0000_0000_0000
            && -0x8000_0000_0000_0000_0000_0000_0000 <= (x as int) * (target as int)
                <= 0x8000_0000_0000_0000_0000_0000_0000
            && -0x8000_0000_0000_0000_0000_0000_0000 <= (y as int) * (target as int)
                <= 0x8000_0000_0000_0000_0000_0000_0000) by (nonlinear_arith)
            requires
                -0x7fff_ffff_ffff_ffff <= x as int <= 0x7fff_ffff_ffff_ffff,
                -0x7fff_ffff_ffff_ffff <= y as int <= 0x7fff_ffff_ffff_ffff,
                0 <= target as int <= 2_000_000_000,
        {}
    }
    let xx = (x as i128) * (x as i128);
    let yy = (y as i128) * (y as i128);
    let d2 = (xx + yy) as u128;
    let l = isqrt(d2);
    if l == 0 {
        Vec2Fix { x: 0, y: 0 }
    } else {
        let sx = div_trunc_i128((x as i128) * (target as i128), l as i128);
        let sy = div_trunc_i128((y as i128) * (target as i128), l as i128);
        Vec2Fix { x: sx as i64, y: sy as i64 }
    }
}

/// An axis-aligned rectangle in fixed-point world coordinates.
#[derive(Clone, Copy, Debug, PartialEq, Eq, Structural)]
pub struct Rect {
    pub min: Vec2Fix,
    pub max: Vec2Fix,
}

impl Rect {
    pub fn new(min: Vec2Fix, max: Vec2Fix) -> (r: Rect)
        ensures
            r.min == min,
            r.max == max,
    {
        Rect { min, max }
    }

    /// Point containment, boundary inclusive.
    pub open spec fn contains_spec(self, p: Vec2Fix) -> bool {
        self.min.x <= p.x <= self.max.x && self.min.y <= p.y <= self.max.y
    }

    pub fn contains(self, p: Vec2Fix) -> (b: bool)
        ensures
            b == self.contains_spec(p),
    {
        self.min.x <= p.x && p.x <= self.max.x && self.min.y <= p.y && p.y <= self.max.y
    }
}

/// A cell coordinate pair (may be out of a grid's range; signed on purpose).
#[derive(Clone, Copy, Debug, PartialEq, Eq, Structural)]
pub struct IVec2 {
    pub x: i64,
    pub y: i64,
}

impl IVec2 {
    pub fn new(x: i64, y: i64) -> (v: IVec2)
        ensures
            v.x == x,
            v.y == y,
    {
        IVec2 { x, y }
    }
}

/// An inclusive rectangle of cell coordinates.
#[derive(Clone, Copy, Debug, PartialEq, Eq, Structural)]
pub struct IRect {
    pub min: IVec2,
    pub max: IVec2,
}

} // verus!
