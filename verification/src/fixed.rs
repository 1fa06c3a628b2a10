//! Fixed-point scalar arithmetic: the global scale, rounded division and
//! integer square roots, with the lemmas the geometry layers build on.

use vstd::arithmetic::div_mod::{lemma_fundamental_div_mod, lemma_mod_division_less_than_divisor};
use vstd::arithmetic::mul::{
    lemma_mul_inequality, lemma_mul_is_commutative, lemma_mul_is_distributive_add_other_way,
    lemma_mul_unary_negation, lemma_mul_upper_bound,
};
use vstd::math::abs;
use vstd::prelude::*;

verus! {

/// Number of fixed-point units that represent the real value 1.0: a unit
/// vector has coordinates in `[-SCALE, SCALE]`.
pub const SCALE: i64 = 1_000_000;

/// Microdegrees in a full turn of 360 degrees.
pub const FULL_TURN: i64 = 360_000_000;

/// Microdegrees in a half turn of 180 degrees.
pub const HALF_TURN: i64 = 180_000_000;

/// Microdegrees in a quarter turn of 90 degrees.
pub const QUARTER_TURN: i64 = 90_000_000;

/// Rounded division for a positive divisor: the nearest integer to `n / d`,
/// ties rounded away from zero. This is the single rounding rule every
/// fixed-point operation of the crate uses.
pub open spec fn rdiv(n: int, d: int) -> int {
    if n >= 0 {
        (n + d / 2) / d
    } else {
        -((-n + d / 2) / d)
    }
}

/// The magnitude of a product is bounded by the product of the bounds.
pub proof fn lemma_mul_abs_bound(x: int, y: int, bx: int, by: int)
    requires
        abs(x) <= bx,
        abs(y) <= by,
    ensures
        abs(x * y) <= bx * by,
{
    let ax = abs(x) as int;
    let ay = abs(y) as int;
    lemma_mul_upper_bound(ax, bx, ay, by);
    lemma_mul_unary_negation(x, y);
    lemma_mul_unary_negation(-x, y);
    assert(x * y == ax * ay || x * y == -(ax * ay));
}

/// Rounded division differs from the exact quotient by at most half a unit:
/// `2 * |rdiv(n, d) * d - n| <= d`.
pub proof fn lemma_rdiv_error(n: int, d: int)
    requires
        d > 0,
    ensures
        2 * abs(rdiv(n, d) * d - n) <= d,
{
    if n >= 0 {
        let m = n + d / 2;
        let q = m / d;
        lemma_fundamental_div_mod(m, d);
        lemma_mod_division_less_than_divisor(m, d);
        lemma_mul_is_commutative(d, q);
        assert(q * d - n == d / 2 - m % d);
    } else {
        let m = -n + d / 2;
        let q = m / d;
        lemma_fundamental_div_mod(m, d);
        lemma_mod_division_less_than_divisor(m, d);
        lemma_mul_is_commutative(d, q);
        lemma_mul_unary_negation(q, d);
        assert((-q) * d - n == -(d / 2 - m % d));
    }
}

/// A bound on the input gives the matching bound on the rounded quotient:
/// `|n| <= d * b` implies `|rdiv(n, d)| <= b`.
pub proof fn lemma_rdiv_bound(n: int, d: int, b: int)
    requires
        d > 0,
        b >= 0,
        abs(n) <= d * b,
    ensures
        abs(rdiv(n, d)) <= b,
{
    lemma_rdiv_error(n, d);
    let r = rdiv(n, d);
    lemma_mul_is_commutative(d, b);
    if r > b {
        lemma_mul_inequality(b + 1, r, d);
        lemma_mul_is_distributive_add_other_way(d, b, 1);
        assert(r * d >= b * d + d);
        assert(2 * (r * d - n) >= 2 * d);
    } else if r < -b {
        lemma_mul_inequality(r, -b - 1, d);
        lemma_mul_is_distributive_add_other_way(d, -b, -1);
        lemma_mul_unary_negation(b, d);
        assert(r * d <= -(b * d) - d);
        assert(2 * (n - r * d) >= 2 * d);
    }
}

/// The floor of the square root of a natural number.
pub open spec fn sqrt_floor(n: nat) -> nat
    decreases n,
{
    if n == 0 {
        0
    } else {
        let r = sqrt_floor((n - 1) as nat);
        if (r + 1) * (r + 1) <= n {
            (r + 1) as nat
        } else {
            r
        }
    }
}

/// `sqrt_floor(n)` brackets `n` between consecutive squares.
pub proof fn lemma_sqrt_floor(n: nat)
    ensures
        sqrt_floor(n) * sqrt_floor(n) <= n,
        n < (sqrt_floor(n) + 1) * (sqrt_floor(n) + 1),
    decreases n,
{
    if n > 0 {
        lemma_sqrt_floor((n - 1) as nat);
        let r = sqrt_floor((n - 1) as nat);
        if (r + 1) * (r + 1) <= n {
            assert(sqrt_floor(n) == r + 1);
            assert(n - 1 < (r + 1) * (r + 1));
            assert(n == (r + 1) * (r + 1));
            assert((r + 1) * (r + 1) < (r + 2) * (r + 2)) by (nonlinear_arith);
            assert(n < (sqrt_floor(n) + 1) * (sqrt_floor(n) + 1));
        } else {
            assert(sqrt_floor(n) == r);
            assert(n < (r + 1) * (r + 1));
            assert((sqrt_floor(n) + 1) * (sqrt_floor(n) + 1) == (r + 1) * (r + 1))
                by (nonlinear_arith)
                requires
                    sqrt_floor(n) == r,
            ;
        }
    } else {
        assert(sqrt_floor(n) == 0);
        assert((sqrt_floor(n) + 1) * (sqrt_floor(n) + 1) == 1) by (nonlinear_arith)
            requires
                sqrt_floor(n) == 0,
        ;
    }
}

/// Any `r` that brackets `n` between consecutive squares is `sqrt_floor(n)`.
pub proof fn lemma_sqrt_floor_unique(n: nat, r: nat)
    requires
        r * r <= n,
        n < (r + 1) * (r + 1),
    ensures
        r == sqrt_floor(n),
{
    lemma_sqrt_floor(n);
    let s = sqrt_floor(n);
    assert(r <= s) by (nonlinear_arith)
        requires
            r * r <= n,
            n < (s + 1) * (s + 1),
            r >= 0,
            s >= 0,
    ;
    assert(s <= r) by (nonlinear_arith)
        requires
            s * s <= n,
            n < (r + 1) * (r + 1),
            r >= 0,
            s >= 0,
    ;
}

/// The widening product of two machine integers, exact by construction.
pub fn wide_mul(a: i64, b: i64) -> (r: i128)
    ensures
        r == a * b,
{
    proof {
        lemma_mul_abs_bound(a as int, b as int, 0x8000_0000_0000_0000, 0x8000_0000_0000_0000);
    }
    (a as i128) * (b as i128)
}

/// Rounded division of a wide intermediate value by a positive divisor.
pub fn rdiv_i128(n: i128, d: i128) -> (r: i128)
    requires
        0 < d,
        -0x4000_0000_0000_0000_0000_0000_0000_0000 < n < 0x4000_0000_0000_0000_0000_0000_0000_0000,
    ensures
        r == rdiv(n as int, d as int),
{
    if n >= 0 {
        let m = (n as u128) + (d as u128) / 2;
        let q = m / (d as u128);
        proof {
            assert(q as int == (n + d / 2) / (d as int));
        }
        q as i128
    } else {
        let m = ((-n) as u128) + (d as u128) / 2;
        let q = m / (d as u128);
        proof {
            assert(q as int == (-n + d / 2) / (d as int));
        }
        -(q as i128)
    }
}

/// Rounded division on narrow values; the result is returned as `i64` once
/// the caller's bound shows that it fits.
pub fn rdiv_i64(n: i128, d: i128, b: i64) -> (r: i64)
    requires
        0 < d,
        b >= 0,
        abs(n as int) <= d * b,
        -0x4000_0000_0000_0000_0000_0000_0000_0000 < n < 0x4000_0000_0000_0000_0000_0000_0000_0000,
    ensures
        r == rdiv(n as int, d as int),
        abs(r as int) <= b,
{
    proof {
        lemma_rdiv_bound(n as int, d as int, b as int);
    }
    let r = rdiv_i128(n, d);
    r as i64
}

/// The floor of the square root, by bisection on the answer.
pub fn isqrt(n: u64) -> (r: u64)
    ensures
        r == sqrt_floor(n as nat),
{
    let mut lo: u64 = 0;
    let mut hi: u64 = 0x1_0000_0000;
    proof {
        assert((hi as int) * (hi as int) > n as int) by (nonlinear_arith)
            requires
                hi == 0x1_0000_0000,
                n <= u64::MAX,
        ;
    }
    while lo + 1 < hi
        invariant
            lo < hi <= 0x1_0000_0000,
            (lo as int) * (lo as int) <= n as int,
            (n as int) < (hi as int) * (hi as int),
        decreases hi - lo,
    {
        let mid = lo + (hi - lo) / 2;
        proof {
            lemma_mul_upper_bound(mid as int, 0x1_0000_0000, mid as int, 0x1_0000_0000);
        }
        let sq = (mid as u128) * (mid as u128);
        if sq <= n as u128 {
            lo = mid;
        } else {
            hi = mid;
        }
    }
    proof {
        lemma_sqrt_floor_unique(n as nat, lo as nat);
    }
    lo
}

/// Clamp a value into the inclusive range `[lo, hi]`.
pub fn clamp_i64(x: i64, lo: i64, hi: i64) -> (r: i64)
    requires
        lo <= hi,
    ensures
        r == if x < lo {
            lo
        } else if x > hi {
            hi
        } else {
            x
        },
        lo <= r <= hi,
{
    if x < lo {
        lo
    } else if x > hi {
        hi
    } else {
        x
    }
}

} // verus!
