//! Fixed-point trigonometry on angles in microdegrees.
//!
//! `sin_cos_udeg` reduces an angle into one octant exactly (the reduction is
//! integer arithmetic, so closed loops close exactly) and evaluates a Taylor
//! polynomial in fixed point; its contract mirrors that computation step for
//! step, so callers know the result exactly. The inverse functions return a
//! bracket: an angle whose modelled cosine encloses the requested value.

use crate::fixed::{
    clamp_i64, isqrt, lemma_mul_abs_bound, rdiv, rdiv_i64, sqrt_floor, wide_mul, FULL_TURN,
    HALF_TURN, QUARTER_TURN, SCALE,
};
use vstd::math::abs;
use vstd::prelude::*;

verus! {

/// Nanoradians in one microdegree, scaled by 1e12.
pub const NRAD_PER_UDEG_E12: i64 = 17_453_292_519_943;

/// Clamp, as a spec value.
pub open spec fn clamp_spec(x: int, lo: int, hi: int) -> int {
    if x < lo {
        lo
    } else if x > hi {
        hi
    } else {
        x
    }
}

/// Taylor sine at scale 1e9: x - x^3/6 + x^5/120 - x^7/5040, in Horner form.
pub open spec fn sin_poly(x: int) -> int {
    let x2 = rdiv(x * x, 1_000_000_000);
    let u = 1_000_000_000 - rdiv(x2, 42);
    let w = 1_000_000_000 - rdiv(x2 * u, 20_000_000_000);
    let w2 = 1_000_000_000 - rdiv(x2 * w, 6_000_000_000);
    rdiv(x * w2, 1_000_000_000)
}

/// Taylor cosine at scale 1e9: 1 - x^2/2 + x^4/24 - x^6/720 + x^8/40320.
pub open spec fn cos_poly(x: int) -> int {
    let x2 = rdiv(x * x, 1_000_000_000);
    let u = 1_000_000_000 - rdiv(x2, 56);
    let v = 1_000_000_000 - rdiv(x2 * u, 30_000_000_000);
    let w = 1_000_000_000 - rdiv(x2 * v, 12_000_000_000);
    1_000_000_000 - rdiv(x2 * w, 2_000_000_000)
}

/// The modelled sine and cosine of an angle in microdegrees, at scale
/// `SCALE`: exact octant reduction, then the Taylor polynomials.
pub open spec fn spec_sin_cos_udeg(a: int) -> (int, int) {
    let r0 = a % 360_000_000;
    let q = r0 / 90_000_000;
    let rem = r0 % 90_000_000;
    let folded = if rem <= 45_000_000 {
        rem
    } else {
        90_000_000 - rem
    };
    let x = rdiv(folded * 17_453_292_519_943, 1_000_000_000_000);
    let sp = clamp_spec(rdiv(sin_poly(x), 1000), -1_000_000, 1_000_000);
    let cp = clamp_spec(rdiv(cos_poly(x), 1000), -1_000_000, 1_000_000);
    let sq = if rem <= 45_000_000 {
        sp
    } else {
        cp
    };
    let cq = if rem <= 45_000_000 {
        cp
    } else {
        sp
    };
    if q == 0 {
        (sq, cq)
    } else if q == 1 {
        (cq, -sq)
    } else if q == 2 {
        (-sq, -cq)
    } else {
        (-cq, sq)
    }
}

pub open spec fn spec_sin_udeg(a: int) -> int {
    spec_sin_cos_udeg(a).0
}

pub open spec fn spec_cos_udeg(a: int) -> int {
    spec_sin_cos_udeg(a).1
}

/// The modelled sine and cosine never leave `[-SCALE, SCALE]`.
pub proof fn lemma_sin_cos_range(a: int)
    ensures
        -SCALE <= spec_sin_udeg(a) <= SCALE,
        -SCALE <= spec_cos_udeg(a) <= SCALE,
{
}


/// The polynomials at a zero angle are exact.
proof fn lemma_poly_at_zero()
    ensures
        sin_poly(0) == 0,
        cos_poly(0) == 1_000_000_000,
{
    assert(rdiv(0, 1_000_000_000) == 0);
    assert(rdiv(0, 42) == 0);
    assert(rdiv(0, 56) == 0);
    assert(0 * (1_000_000_000 - 0) == 0) by (nonlinear_arith);
    assert(rdiv(0, 20_000_000_000) == 0);
    assert(rdiv(0, 30_000_000_000) == 0);
    assert(rdiv(0, 12_000_000_000) == 0);
    assert(rdiv(0, 6_000_000_000) == 0);
    assert(rdiv(0, 2_000_000_000) == 0);
}

/// The modelled sine and cosine at zero are exact.
pub proof fn lemma_trig_at_zero()
    ensures
        spec_cos_udeg(0) == SCALE,
        spec_sin_udeg(0) == 0,
{
    lemma_poly_at_zero();
    assert(0int % 360_000_000 == 0);
    assert(0int / 90_000_000 == 0);
    assert(0int % 90_000_000 == 0);
    assert(rdiv(0int * 17_453_292_519_943int, 1_000_000_000_000) == 0);
    assert(rdiv(0, 1000) == 0);
    assert(rdiv(1_000_000_000, 1000) == 1_000_000);
    assert(spec_sin_cos_udeg(0) == (0int, SCALE as int));
}

/// The modelled sine and cosine at a half turn are exact.
pub proof fn lemma_trig_at_half_turn()
    ensures
        spec_cos_udeg(HALF_TURN as int) == -SCALE,
        spec_sin_udeg(HALF_TURN as int) == 0,
{
    lemma_poly_at_zero();
    assert(180_000_000int % 360_000_000 == 180_000_000);
    assert(180_000_000int / 90_000_000 == 2);
    assert(180_000_000int % 90_000_000 == 0);
    assert(rdiv(0int * 17_453_292_519_943int, 1_000_000_000_000) == 0);
    assert(rdiv(0, 1000) == 0);
    assert(rdiv(1_000_000_000, 1000) == 1_000_000);
    assert(spec_sin_cos_udeg(HALF_TURN as int) == (0int, -SCALE as int));
}

/// A full turn reduces exactly to zero, so closed loops close exactly.
pub proof fn lemma_trig_full_turn()
    ensures
        spec_cos_udeg(360_000_000) == spec_cos_udeg(0),
        spec_sin_udeg(360_000_000) == spec_sin_udeg(0),
{
    assert(360_000_000int % 360_000_000int == 0);
    assert(0int % 360_000_000int == 0);
}

/// Euclidean remainder of an angle in a full turn.
pub fn reduce_turn(a: i64) -> (r: i64)
    requires
        a > i64::MIN,
    ensures
        r == (a as int) % (FULL_TURN as int),
        0 <= r < FULL_TURN,
{
    if a >= 0 {
        a % FULL_TURN
    } else {
        let m = (-a) % FULL_TURN;
        proof {
            vstd::arithmetic::div_mod::lemma_fundamental_div_mod(-(a as int), FULL_TURN as int);
            vstd::arithmetic::div_mod::lemma_fundamental_div_mod_converse(
                a as int,
                FULL_TURN as int,
                if m == 0 {
                    -((-a) as int / FULL_TURN as int)
                } else {
                    -((-a) as int / FULL_TURN as int) - 1
                },
                if m == 0 {
                    0
                } else {
                    FULL_TURN - m
                },
            );
        }
        if m == 0 {
            0
        } else {
            FULL_TURN - m
        }
    }
}

/// The sine Taylor polynomial, evaluated exactly as `sin_poly` says.
fn sin_poly_exec(x: i64) -> (r: i64)
    requires
        0 <= x <= 786_000_000,
    ensures
        r == sin_poly(x as int),
        abs(r as int) <= 900_000_000,
{
    proof {
        lemma_mul_abs_bound(x as int, x as int, 786_000_000, 786_000_000);
    }
    let x2 = rdiv_i64(wide_mul(x, x), 1_000_000_000, 700_000_000);
    let u = 1_000_000_000 - rdiv_i64(x2 as i128, 42, 17_000_000);
    proof {
        lemma_mul_abs_bound(x2 as int, u as int, 700_000_000, 1_017_000_000);
    }
    let w = 1_000_000_000 - rdiv_i64(wide_mul(x2, u), 20_000_000_000, 36_000_000);
    proof {
        lemma_mul_abs_bound(x2 as int, w as int, 700_000_000, 1_036_000_000);
    }
    let w2 = 1_000_000_000 - rdiv_i64(wide_mul(x2, w), 6_000_000_000, 121_000_000);
    proof {
        lemma_mul_abs_bound(x as int, w2 as int, 786_000_000, 1_121_000_000);
    }
    let r = rdiv_i64(wide_mul(x, w2), 1_000_000_000, 900_000_000);
    r
}

/// The cosine Taylor polynomial, evaluated exactly as `cos_poly` says.
fn cos_poly_exec(x: i64) -> (r: i64)
    requires
        0 <= x <= 786_000_000,
    ensures
        r == cos_poly(x as int),
        abs(r as int) <= 1_400_000_000,
{
    proof {
        lemma_mul_abs_bound(x as int, x as int, 786_000_000, 786_000_000);
    }
    let x2 = rdiv_i64(wide_mul(x, x), 1_000_000_000, 700_000_000);
    let u = 1_000_000_000 - rdiv_i64(x2 as i128, 56, 13_000_000);
    proof {
        lemma_mul_abs_bound(x2 as int, u as int, 700_000_000, 1_013_000_000);
    }
    let v = 1_000_000_000 - rdiv_i64(wide_mul(x2, u), 30_000_000_000, 24_000_000);
    proof {
        lemma_mul_abs_bound(x2 as int, v as int, 700_000_000, 1_024_000_000);
    }
    let w = 1_000_000_000 - rdiv_i64(wide_mul(x2, v), 12_000_000_000, 60_000_000);
    proof {
        lemma_mul_abs_bound(x2 as int, w as int, 700_000_000, 1_060_000_000);
    }
    let c2 = rdiv_i64(wide_mul(x2, w), 2_000_000_000, 380_000_000);
    1_000_000_000 - c2
}

/// Sine and cosine of an angle in microdegrees, at scale `SCALE`.
pub fn sin_cos_udeg(a: i64) -> (r: (i64, i64))
    requires
        a > i64::MIN,
    ensures
        r.0 == spec_sin_udeg(a as int),
        r.1 == spec_cos_udeg(a as int),
        -SCALE <= r.0 <= SCALE,
        -SCALE <= r.1 <= SCALE,
{
    let r0 = reduce_turn(a);
    let q = r0 / 90_000_000;
    let rem = r0 % 90_000_000;
    let folded = if rem <= 45_000_000 {
        rem
    } else {
        90_000_000 - rem
    };
    proof {
        lemma_mul_abs_bound(folded as int, NRAD_PER_UDEG_E12 as int, 45_000_000, NRAD_PER_UDEG_E12 as int);
    }
    let x = rdiv_i64(
        wide_mul(folded, NRAD_PER_UDEG_E12),
        1_000_000_000_000,
        786_000_000,
    );
    proof {
        assert(x >= 0) by {
            assert(folded as int * NRAD_PER_UDEG_E12 as int >= 0) by (nonlinear_arith)
                requires
                    folded >= 0,
                    NRAD_PER_UDEG_E12 > 0,
            ;
        }
    }
    let sp = clamp_i64(rdiv_i64(sin_poly_exec(x) as i128, 1000, 900_000), -SCALE, SCALE);
    let cp = clamp_i64(rdiv_i64(cos_poly_exec(x) as i128, 1000, 1_400_000), -SCALE, SCALE);
    let sq = if rem <= 45_000_000 {
        sp
    } else {
        cp
    };
    let cq = if rem <= 45_000_000 {
        cp
    } else {
        sp
    };
    if q == 0 {
        (sq, cq)
    } else if q == 1 {
        (cq, -sq)
    } else if q == 2 {
        (-sq, -cq)
    } else {
        (-cq, sq)
    }
}

/// `r` is an inverse cosine of `c` in the fixed-point model: the modelled
/// cosine crosses `c` between `r` and `r + 1` microdegrees.
pub open spec fn is_acos_of(r: int, c: int) -> bool {
    &&& 0 <= r < HALF_TURN
    &&& spec_cos_udeg(r) >= c
    &&& spec_cos_udeg(r + 1) <= c
}

/// The angle the bisection converges to: the unique fixed point of halving
/// `[lo, hi]` while keeping the modelled cosine at least `c` on the left.
pub open spec fn acos_bisect(c: int, lo: int, hi: int) -> int
    decreases hi - lo,
{
    if hi - lo <= 1 {
        lo
    } else {
        let mid = lo + (hi - lo) / 2;
        if spec_cos_udeg(mid) >= c {
            acos_bisect(c, mid, hi)
        } else {
            acos_bisect(c, lo, mid)
        }
    }
}

/// The modelled inverse cosine: zero at full scale (the modelled cosine of
/// zero is exactly full scale), else the bisection over a half turn.
pub open spec fn acos_spec(c: int) -> int {
    if c >= SCALE {
        0
    } else {
        acos_bisect(c, 0, HALF_TURN as int)
    }
}

/// Inverse cosine by bisection: the result is exactly `acos_spec(c)`, and
/// it brackets `c` under the modelled cosine, which pins it to within the
/// flatness of the cosine itself.
pub fn acos_udeg(c: i64) -> (r: i64)
    requires
        -SCALE <= c <= SCALE,
    ensures
        r == acos_spec(c as int),
        is_acos_of(r as int, c as int),
{
    if c >= SCALE {
        proof {
            lemma_trig_at_zero();
            lemma_sin_cos_range(1);
        }
        return 0;
    }
    let mut lo: i64 = 0;
    let mut hi: i64 = HALF_TURN;
    proof {
        lemma_trig_at_zero();
        lemma_trig_at_half_turn();
    }
    while lo + 1 < hi
        invariant
            0 <= lo < hi <= HALF_TURN,
            c < SCALE,
            spec_cos_udeg(lo as int) >= c,
            spec_cos_udeg(hi as int) <= c,
            acos_bisect(c as int, lo as int, hi as int) == acos_spec(c as int),
        decreases hi - lo,
    {
        let mid = lo + (hi - lo) / 2;
        let sc = sin_cos_udeg(mid);
        proof {
            assert(acos_bisect(c as int, lo as int, hi as int) == if spec_cos_udeg(mid as int)
                >= c {
                acos_bisect(c as int, mid as int, hi as int)
            } else {
                acos_bisect(c as int, lo as int, mid as int)
            });
        }
        if sc.1 >= c {
            lo = mid;
        } else {
            hi = mid;
        }
    }
    proof {
        assert(acos_bisect(c as int, lo as int, hi as int) == lo);
    }
    lo
}

/// Inverse sine: a quarter turn minus the inverse cosine.
pub fn asin_udeg(s: i64) -> (r: i64)
    requires
        -SCALE <= s <= SCALE,
    ensures
        r == QUARTER_TURN - acos_spec(s as int),
        is_acos_of(QUARTER_TURN - r, s as int),
        -QUARTER_TURN < r <= QUARTER_TURN,
{
    let a = acos_udeg(s);
    proof {
        if s >= SCALE {
            lemma_trig_at_zero();
            lemma_sin_cos_range(1);
        }
    }
    QUARTER_TURN - a
}

/// `r` is the modelled planar angle of the direction `(x, z)`, measured from
/// the positive `z` axis toward positive `x`: the inverse cosine of `z` over
/// the integer hypotenuse, mirrored into `[HALF_TURN, FULL_TURN)` when `x`
/// is negative, and `0` for the zero direction.
pub open spec fn is_atan2_of(r: int, x: int, z: int) -> bool {
    let c = rdiv(z * SCALE, sqrt_floor((x * x + z * z) as nat) as int);
    if x * x + z * z == 0 {
        r == 0
    } else if x >= 0 {
        is_acos_of(r, c)
    } else {
        (r == 0 && is_acos_of(0, c)) || (0 < r && is_acos_of(FULL_TURN - r, c))
    }
}

/// The modelled planar angle of the direction `(x, z)`: the inverse cosine
/// of `z` over the integer hypotenuse, mirrored past the half turn when `x`
/// is negative; zero for the zero direction.
pub open spec fn atan2_spec(x: int, z: int) -> int {
    let h = sqrt_floor((x * x + z * z) as nat) as int;
    if h == 0 {
        0
    } else {
        let c = rdiv(z * SCALE, h);
        let a = acos_spec(c);
        if x >= 0 {
            a
        } else if a == 0 {
            0
        } else {
            FULL_TURN - a
        }
    }
}

/// The angle of the direction `(x, z)` measured from the positive `z` axis
/// toward positive `x`, in `[0, FULL_TURN)`; `0` when the direction is zero.
pub fn atan2_udeg(x: i64, z: i64) -> (r: i64)
    requires
        abs(x as int) <= 2_000_000_000,
        abs(z as int) <= 2_000_000_000,
    ensures
        r == atan2_spec(x as int, z as int),
        0 <= r < FULL_TURN,
        is_atan2_of(r as int, x as int, z as int),
{
    proof {
        lemma_mul_abs_bound(x as int, x as int, 2_000_000_000, 2_000_000_000);
        lemma_mul_abs_bound(z as int, z as int, 2_000_000_000, 2_000_000_000);
        assert(x as int * x >= 0 && z as int * z >= 0) by (nonlinear_arith);
    }
    let xx = wide_mul(x, x);
    let zz = wide_mul(z, z);
    let n2 = (xx + zz) as u64;
    let h = isqrt(n2);
    proof {
        crate::fixed::lemma_sqrt_floor(n2 as nat);
    }
    if h == 0 {
        proof {
            assert(n2 as int == x as int * x + z as int * z);
            assert((sqrt_floor(n2 as nat) + 1) * (sqrt_floor(n2 as nat) + 1) == 1)
                by (nonlinear_arith)
                requires
                    sqrt_floor(n2 as nat) == 0,
            ;
            assert(n2 == 0);
        }
        return 0;
    }
    proof {
        let hh = sqrt_floor(n2 as nat) as int;
        assert(z as int * z <= n2 as int);
        assert(abs(z as int) <= hh) by (nonlinear_arith)
            requires
                z as int * z < (hh + 1) * (hh + 1),
                hh >= 0,
        ;
        lemma_mul_abs_bound(z as int, SCALE as int, hh, SCALE as int);
    }
    let c = rdiv_i64(wide_mul(z, SCALE), h as i128, SCALE);
    let a = acos_udeg(c);
    if x >= 0 {
        a
    } else if a == 0 {
        0
    } else {
        FULL_TURN - a
    }
}

} // verus!
