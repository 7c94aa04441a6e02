//! Exact fixed-point scalar and vector helpers.
//!
//! The simulation works entirely in integers.  Fractional quantities
//! (similarity scores, rotation amounts, the metabolic rates) are stored
//! scaled by [`SCALE`]; direction vectors are stored with components scaled
//! by [`DIR_ONE`], so a unit vector has squared length about
//! `DIR_ONE * DIR_ONE`.  Every function here has an exact contract: the
//! result is a mathematical function of the inputs, stated over `int`.

use vstd::prelude::*;
use vstd::arithmetic::div_mod::{
    lemma_div_is_ordered,
    lemma_div_multiples_vanish,
    lemma_div_nonincreasing,
    lemma_div_pos_is_pos,
};

verus! {

/// Denominator of fractional fixed-point quantities.
pub const SCALE: i32 = 1024;

/// Length of a unit direction vector, in direction fixed-point units.
pub const DIR_ONE: i32 = 65536;

/// Largest component magnitude [`normalize_dir`] accepts.
pub const COMP_LIMIT: i64 = 4294967296;

/// A 2D vector of fixed-point coordinates.
#[derive(Clone, Copy, PartialEq, Eq, Structural, Debug)]
pub struct Vec2 {
    pub x: i32,
    pub y: i32,
}

/// Truncated division (rounds toward zero), the semantics of every scalar
/// division the simulation performs.
pub open spec fn tdiv(n: int, d: int) -> int
    recommends
        d > 0,
{
    if n >= 0 {
        n / d
    } else {
        -((-n) / d)
    }
}

/// The absolute value of an integer.
pub open spec fn abs(n: int) -> int {
    if n >= 0 {
        n
    } else {
        -n
    }
}

/// The squared euclidean length of the vector `(x, y)`.
pub open spec fn norm_sq(x: int, y: int) -> int {
    x * x + y * y
}

/// The integer square root: the greatest `r` with `r * r <= n`.
pub open spec fn sqrt_floor(n: nat) -> nat
    decreases n,
{
    if n == 0 {
        0
    } else {
        let p = sqrt_floor((n - 1) as nat);
        if (p + 1) * (p + 1) <= n {
            p + 1
        } else {
            p
        }
    }
}

/// Squaring is strictly monotonic on the non-negative integers.
proof fn lemma_sq_lt(a: int, b: int)
    requires
        0 <= a < b,
    ensures
        a * a < b * b,
{
    assert(a * a < b * b) by (nonlinear_arith)
        requires
            0 <= a < b,
    ;
}

/// [`sqrt_floor`] is bracketed by the two neighbouring squares.
pub proof fn lemma_sqrt_floor_bounds(n: nat)
    ensures
        sqrt_floor(n) * sqrt_floor(n) <= n,
        n < (sqrt_floor(n) + 1) * (sqrt_floor(n) + 1),
    decreases n,
{
    if n == 0 {
        let s = sqrt_floor(n);
        assert((s + 1) * (s + 1) == 1) by (nonlinear_arith)
            requires
                s == 0,
        ;
    } else {
        lemma_sqrt_floor_bounds((n - 1) as nat);
        let p = sqrt_floor((n - 1) as nat);
        assert(sqrt_floor(n) == if (p + 1) * (p + 1) <= n {
            p + 1
        } else {
            p
        });
        if (p + 1) * (p + 1) <= n {
            let s = sqrt_floor(n);
            assert(s == p + 1);
            lemma_sq_lt(p + 1 as int, p + 2 as int);
            assert(s * s == (p + 1) * (p + 1));
            assert(s * s <= n);
            assert(n - 1 < (p + 1) * (p + 1));
            assert((s + 1) * (s + 1) == (p + 2) * (p + 2));
            assert(n < (s + 1) * (s + 1));
        } else {
            let s = sqrt_floor(n);
            assert(s == p);
            assert(s * s <= n - 1);
            assert(n < (s + 1) * (s + 1));
        }
    }
}

/// Any `r` bracketed by the two neighbouring squares of `n` is `sqrt_floor(n)`.
pub proof fn lemma_sqrt_floor_unique(n: nat, r: nat)
    requires
        r * r <= n,
        n < (r + 1) * (r + 1),
    ensures
        r == sqrt_floor(n),
{
    let s = sqrt_floor(n);
    lemma_sqrt_floor_bounds(n);
    if r < s {
        lemma_sq_lt(r + 1 as int, s + 1 as int);
        assert((r + 1) * (r + 1) <= s * s) by (nonlinear_arith)
            requires
                0 <= r + 1 <= s,
        ;
    }
    if s < r {
        assert((s + 1) * (s + 1) <= r * r) by (nonlinear_arith)
            requires
                0 <= s + 1 <= r,
        ;
    }
}

/// Computes the integer square root by binary search.
pub fn isqrt(n: u128) -> (r: u128)
    ensures
        r == sqrt_floor(n as nat),
{
    if n == 0 {
        return 0;
    }
    let mut lo: u128 = 0;
    let mut hi: u128 = 0x10000000000000000;
    while hi - lo > 1
        invariant
            lo < hi <= 0x10000000000000000,
            (lo as int) * (lo as int) <= n as int,
            (n as int) < (hi as int) * (hi as int),
        decreases hi - lo,
    {
        let mid: u128 = lo + (hi - lo) / 2;
        proof {
            assert((mid as int) * (mid as int) < 0x100000000000000000000000000000000)
                by (nonlinear_arith)
                requires
                    0 <= mid as int <= 0xffffffffffffffff,
            ;
        }
        if mid * mid <= n {
            lo = mid;
        } else {
            hi = mid;
        }
    }
    proof {
        lemma_sqrt_floor_unique(n as nat, lo as nat);
    }
    lo
}

/// The `x` component of the normalized direction of `(x, y)`: the vector is
/// scaled so its length is (up to truncation) [`DIR_ONE`].
pub open spec fn normalize_x(x: int, y: int) -> int
    recommends
        x != 0 || y != 0,
{
    let m = sqrt_floor(norm_sq(x, y) as nat) as int;
    if x >= 0 {
        (x * 65536) / m
    } else {
        -(((-x) * 65536) / m)
    }
}

/// The `y` component of the normalized direction of `(x, y)`.
pub open spec fn normalize_y(x: int, y: int) -> int
    recommends
        x != 0 || y != 0,
{
    normalize_x(y, x)
}

/// A well-formed direction vector: components bounded by [`DIR_ONE`] and
/// not the zero vector.
pub open spec fn dir_wf(d: Vec2) -> bool {
    &&& -65536 <= d.x <= 65536
    &&& -65536 <= d.y <= 65536
    &&& !(d.x == 0 && d.y == 0)
}

/// The length of a nonzero vector is at least one and at least each
/// component magnitude, and at most the sum of the component magnitudes.
proof fn lemma_norm_bounds(x: int, y: int)
    requires
        x != 0 || y != 0,
    ensures
        1 <= sqrt_floor(norm_sq(x, y) as nat),
        abs(x) <= sqrt_floor(norm_sq(x, y) as nat) as int,
        abs(y) <= sqrt_floor(norm_sq(x, y) as nat) as int,
        sqrt_floor(norm_sq(x, y) as nat) as int <= abs(x) + abs(y),
{
    let nsq = norm_sq(x, y);
    let a = abs(x);
    let b = abs(y);
    assert(a * a <= nsq && b * b <= nsq && 1 <= nsq && nsq <= (a + b) * (a + b))
        by (nonlinear_arith)
        requires
            nsq == x * x + y * y,
            a == x || a == -x,
            b == y || b == -y,
            a >= 0,
            b >= 0,
            x != 0 || y != 0,
    ;
    lemma_sqrt_floor_bounds(nsq as nat);
    let m = sqrt_floor(nsq as nat) as int;
    if m < 1 {
        assert((m + 1) * (m + 1) == 1) by (nonlinear_arith)
            requires
                m == 0,
        ;
    }
    if a > m {
        assert((m + 1) * (m + 1) <= a * a) by (nonlinear_arith)
            requires
                0 <= m + 1 <= a,
        ;
    }
    if b > m {
        assert((m + 1) * (m + 1) <= b * b) by (nonlinear_arith)
            requires
                0 <= m + 1 <= b,
        ;
    }
    if m > a + b {
        assert((a + b + 1) * (a + b + 1) <= m * m) by (nonlinear_arith)
            requires
                0 <= a + b + 1 <= m,
        ;
        assert((a + b) * (a + b) < (a + b + 1) * (a + b + 1)) by (nonlinear_arith)
            requires
                0 <= a + b,
        ;
    }
}

/// The component magnitude of a normalization never exceeds [`DIR_ONE`],
/// and the larger component keeps at least half of it.
pub proof fn lemma_normalize_bounds(x: int, y: int)
    requires
        x != 0 || y != 0,
    ensures
        abs(normalize_x(x, y)) <= 65536,
        abs(normalize_y(x, y)) <= 65536,
        abs(normalize_x(x, y)) >= 32768 || abs(normalize_y(x, y)) >= 32768,
        abs(normalize_x(x, y)) == (abs(x) * 65536) / (sqrt_floor(norm_sq(x, y) as nat) as int),
        abs(normalize_y(x, y)) == (abs(y) * 65536) / (sqrt_floor(norm_sq(x, y) as nat) as int),
{
    let nsq = norm_sq(x, y);
    let m = sqrt_floor(nsq as nat) as int;
    lemma_norm_bounds(x, y);
    assert(norm_sq(y, x) == nsq);
    let a = abs(x);
    let b = abs(y);
    lemma_div_pos_is_pos(a * 65536, m);
    lemma_div_pos_is_pos(b * 65536, m);
    assert(abs(normalize_x(x, y)) == (a * 65536) / m);
    assert(abs(normalize_y(x, y)) == (b * 65536) / m);
    lemma_div_is_ordered(a * 65536, m * 65536, m);
    lemma_div_is_ordered(b * 65536, m * 65536, m);
    lemma_div_multiples_vanish(65536, m);
    let c = if a >= b {
        a
    } else {
        b
    };
    assert(m * 32768 <= c * 65536);
    lemma_div_is_ordered(m * 32768, c * 65536, m);
    lemma_div_multiples_vanish(32768, m);
}

/// Scales the nonzero vector `(x, y)` to length (about) [`DIR_ONE`].
pub fn normalize_dir(x: i64, y: i64) -> (d: Vec2)
    requires
        -COMP_LIMIT <= x <= COMP_LIMIT,
        -COMP_LIMIT <= y <= COMP_LIMIT,
        !(x == 0 && y == 0),
    ensures
        d.x == normalize_x(x as int, y as int),
        d.y == normalize_y(x as int, y as int),
        dir_wf(d),
        32768 <= abs(d.x as int) || 32768 <= abs(d.y as int),
{
    proof {
        assert(0 <= x * x <= 0x10000000000000000 && 0 <= y * y <= 0x10000000000000000)
            by (nonlinear_arith)
            requires
                -4294967296 <= x <= 4294967296,
                -4294967296 <= y <= 4294967296,
        ;
        lemma_normalize_bounds(x as int, y as int);
        lemma_norm_bounds(x as int, y as int);
    }
    let nsq: i128 = x as i128 * x as i128 + y as i128 * y as i128;
    let m: u128 = isqrt(nsq as u128);
    let ax: u128 = if x >= 0 {
        x as u128
    } else {
        (-x) as u128
    };
    let ay: u128 = if y >= 0 {
        y as u128
    } else {
        (-y) as u128
    };
    let qx: u128 = ax * 65536 / m;
    let qy: u128 = ay * 65536 / m;
    let dx: i32 = if x >= 0 {
        qx as i32
    } else {
        -(qx as i32)
    };
    let dy: i32 = if y >= 0 {
        qy as i32
    } else {
        -(qy as i32)
    };
    Vec2 { x: dx, y: dy }
}

/// The direction obtained by moving `cur` toward `target` by the fraction
/// `t / SCALE`: the linear blend of the two directions, renormalized.  When
/// the blend degenerates to the zero vector (the directions cancel), the
/// current direction is kept unchanged.
pub open spec fn blend_spec(cur: Vec2, target: Vec2, t: int) -> Vec2
    recommends
        dir_wf(cur),
        dir_wf(target),
        0 <= t <= 1024,
{
    let vx = cur.x * (1024 - t) + target.x * t;
    let vy = cur.y * (1024 - t) + target.y * t;
    if vx == 0 && vy == 0 {
        cur
    } else {
        Vec2 { x: normalize_x(vx, vy) as i32, y: normalize_y(vx, vy) as i32 }
    }
}

/// Rotates `cur` toward `target` by the fraction `t / SCALE`.
pub fn blend_dir(cur: Vec2, target: Vec2, t: i32) -> (d: Vec2)
    requires
        dir_wf(cur),
        dir_wf(target),
        0 <= t <= SCALE,
    ensures
        d == blend_spec(cur, target, t as int),
        dir_wf(d),
{
    proof {
        assert(-0x4000000 <= cur.x * (1024 - t) <= 0x4000000 && -0x4000000 <= cur.y * (1024 - t)
            <= 0x4000000 && -0x4000000 <= target.x * t <= 0x4000000 && -0x4000000 <= target.y * t
            <= 0x4000000) by (nonlinear_arith)
            requires
                -65536 <= cur.x <= 65536,
                -65536 <= cur.y <= 65536,
                -65536 <= target.x <= 65536,
                -65536 <= target.y <= 65536,
                0 <= t <= 1024,
        ;
    }
    let vx: i64 = cur.x as i64 * (1024 - t) as i64 + target.x as i64 * t as i64;
    let vy: i64 = cur.y as i64 * (1024 - t) as i64 + target.y as i64 * t as i64;
    if vx == 0 && vy == 0 {
        cur
    } else {
        proof {
            lemma_normalize_bounds(vx as int, vy as int);
        }
        let d = normalize_dir(vx, vy);
        d
    }
}

/// Whether the cosine of the angle between `u` and `v` is at least
/// `c / SCALE`.  Stated with squared products so the comparison is exact
/// over the integers: for nonzero vectors this is equivalent to the real
/// statement `dot(u, v) / (|u| * |v|) >= c / SCALE`.
pub open spec fn cos_ge(ux: int, uy: int, vx: int, vy: int, c: int) -> bool {
    let dot = ux * vx + uy * vy;
    let dd = dot * dot;
    let nu = norm_sq(ux, uy);
    let nv = norm_sq(vx, vy);
    if c <= 0 {
        dot >= 0 || 1048576 * dd <= c * c * nu * nv
    } else {
        dot > 0 && 1048576 * dd >= c * c * nu * nv
    }
}

/// Decides [`cos_ge`]: is the angle between `u` and `v` at most the angle
/// whose cosine is `c / SCALE`?
pub fn cos_at_least(ux: i64, uy: i64, vx: i64, vy: i64, c: i32) -> (r: bool)
    requires
        -131072 <= ux <= 131072,
        -131072 <= uy <= 131072,
        -4294967296 <= vx <= 4294967296,
        -4294967296 <= vy <= 4294967296,
        -1024 <= c <= 1024,
    ensures
        r == cos_ge(ux as int, uy as int, vx as int, vy as int, c as int),
{
    proof {
        lemma_cos_products_bounded(ux as int, uy as int, vx as int, vy as int, c as int);
    }
    let dot: i128 = (ux as i128) * (vx as i128) + (uy as i128) * (vy as i128);
    let nu: i128 = (ux as i128) * (ux as i128) + (uy as i128) * (uy as i128);
    let nv: i128 = (vx as i128) * (vx as i128) + (vy as i128) * (vy as i128);
    let dd: i128 = dot * dot;
    let lhs: i128 = 1048576 * dd;
    let rhs: i128 = (c as i128) * (c as i128) * nu * nv;
    if c <= 0 {
        dot >= 0 || lhs <= rhs
    } else {
        dot > 0 && lhs >= rhs
    }
}

/// The products compared by [`cos_at_least`] fit comfortably in `i128`.
proof fn lemma_cos_products_bounded(ux: int, uy: int, vx: int, vy: int, c: int)
    requires
        -131072 <= ux <= 131072,
        -131072 <= uy <= 131072,
        -4294967296 <= vx <= 4294967296,
        -4294967296 <= vy <= 4294967296,
        -1024 <= c <= 1024,
    ensures
        -0x2000000000000 <= ux * vx <= 0x2000000000000,
        -0x2000000000000 <= uy * vy <= 0x2000000000000,
        0 <= ux * ux <= 0x400000000,
        0 <= uy * uy <= 0x400000000,
        0 <= vx * vx <= 0x10000000000000000,
        0 <= vy * vy <= 0x10000000000000000,
        0 <= norm_sq(ux, uy) <= 0x800000000,
        0 <= norm_sq(vx, vy) <= 0x20000000000000000,
        0 <= (ux * vx + uy * vy) * (ux * vx + uy * vy) <= 0x10000000000000000000000000,
        0 <= c * c <= 0x100000,
        0 <= c * c * norm_sq(ux, uy) <= 0x80000000000000,
        0 <= c * c * norm_sq(ux, uy) * norm_sq(vx, vy) <= 0x1000000000000000000000000000000,
{
    assert(-0x2000000000000 <= ux * vx <= 0x2000000000000 && -0x2000000000000 <= uy * vy
        <= 0x2000000000000) by (nonlinear_arith)
        requires
            -131072 <= ux <= 131072,
            -131072 <= uy <= 131072,
            -4294967296 <= vx <= 4294967296,
            -4294967296 <= vy <= 4294967296,
    ;
    assert(0 <= ux * ux <= 0x400000000 && 0 <= uy * uy <= 0x400000000) by (nonlinear_arith)
        requires
            -131072 <= ux <= 131072,
            -131072 <= uy <= 131072,
    ;
    assert(0 <= vx * vx <= 0x10000000000000000 && 0 <= vy * vy <= 0x10000000000000000)
        by (nonlinear_arith)
        requires
            -4294967296 <= vx <= 4294967296,
            -4294967296 <= vy <= 4294967296,
    ;
    let dot = ux * vx + uy * vy;
    assert(0 <= dot * dot <= 0x10000000000000000000000000) by (nonlinear_arith)
        requires
            -0x4000000000000 <= dot <= 0x4000000000000,
    ;
    assert(0 <= c * c <= 0x100000) by (nonlinear_arith)
        requires
            -1024 <= c <= 1024,
    ;
    assert(0 <= c * c * norm_sq(ux, uy) <= 0x80000000000000) by (nonlinear_arith)
        requires
            0 <= c * c <= 0x100000,
            0 <= norm_sq(ux, uy) <= 0x800000000,
    ;
    assert(0 <= c * c * norm_sq(ux, uy) * norm_sq(vx, vy) <= 0x1000000000000000000000000000000)
        by (nonlinear_arith)
        requires
            0 <= c * c * norm_sq(ux, uy) <= 0x80000000000000,
            0 <= norm_sq(vx, vy) <= 0x20000000000000000,
    ;
}

/// A quotient is bounded by `bound` when the numerator is within
/// `bound * d`.
pub proof fn lemma_tdiv_bound(n: int, d: int, bound: int)
    requires
        d >= 1,
        bound >= 0,
        -(bound * d) <= n <= bound * d,
    ensures
        -bound <= tdiv(n, d) <= bound,
{
    if n >= 0 {
        lemma_div_pos_is_pos(n, d);
        lemma_div_is_ordered(n, bound * d, d);
        lemma_div_multiples_vanish(bound, d);
        assert(bound * d == d * bound) by (nonlinear_arith);
    } else {
        lemma_div_pos_is_pos(-n, d);
        lemma_div_is_ordered(-n, bound * d, d);
        lemma_div_multiples_vanish(bound, d);
        assert(bound * d == d * bound) by (nonlinear_arith);
    }
}

/// Divides `n` by the positive `d`, truncating toward zero.
pub fn div_trunc(n: i128, d: i128) -> (r: i128)
    requires
        d > 0,
        n > i128::MIN,
    ensures
        r == tdiv(n as int, d as int),
{
    if n >= 0 {
        ((n as u128) / (d as u128)) as i128
    } else {
        let q: u128 = ((-n) as u128) / (d as u128);
        proof {
            lemma_div_nonincreasing((-n) as int, d as int);
        }
        -(q as i128)
    }
}

} // verus!
