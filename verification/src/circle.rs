//! Parametric generators: great circles, small circles and geodesic arcs,
//! each as a closed loop (or open path) of fixed-point samples whose
//! construction the contracts mirror exactly, step for step.

use crate::fixed::{clamp_i64, isqrt, lemma_mul_abs_bound, rdiv, rdiv_i64, sqrt_floor, wide_mul, SCALE};
use crate::trig::{acos_spec, acos_udeg, is_acos_of, sin_cos_udeg, spec_cos_udeg, spec_sin_udeg};
use crate::quaternion::Quaternion;
use crate::vec3::Vec3;
use vstd::math::abs;
use vstd::prelude::*;

verus! {

/// A great circle, defined entirely by the index of its pole point.
pub struct GreatCircle {
    pub pole: usize,
    pub name: String,
}

impl GreatCircle {
    pub fn new(pole: usize) -> (r: GreatCircle)
        ensures
            r.pole == pole,
            r.name@ == Seq::<char>::empty(),
    {
        GreatCircle { pole, name: String::new() }
    }
}

/// A small circle: the plane orthogonal to the pole at signed distance
/// `plane_distance / SCALE` from the centre.
pub struct SmallCircle {
    pub pole: usize,
    pub plane_distance: i64,
    pub name: String,
}

impl SmallCircle {
    pub fn new(pole: usize, plane_distance: i64) -> (r: SmallCircle)
        ensures
            r.pole == pole,
            r.plane_distance == plane_distance,
            r.name@ == Seq::<char>::empty(),
    {
        SmallCircle { pole, plane_distance, name: String::new() }
    }
}

/// Number of sampled segments per full circle or arc.
pub const CIRCLE_STEPS: i64 = 200;

/// Microdegrees per step of a closed 200-step loop.
pub const STEP_UDEG: i64 = 1_800_000;

/// The first basis vector of the plane orthogonal to `pole`: the unit
/// direction of `(-pole.y, pole.x, 0)`, or the `x` axis when the pole is
/// aligned with the `z` axis.
pub open spec fn gc_u(pole: Vec3) -> Vec3 {
    let r = sqrt_floor((pole.x * pole.x + pole.y * pole.y) as nat) as int;
    if r == 0 {
        Vec3 { x: SCALE, y: 0, z: 0 }
    } else {
        Vec3 {
            x: rdiv(-pole.y * SCALE, r) as i64,
            y: rdiv(pole.x * SCALE, r) as i64,
            z: 0,
        }
    }
}

/// The second basis vector: `pole` crossed with `gc_u(pole)`, rounded.
pub open spec fn gc_v(pole: Vec3, u: Vec3) -> Vec3 {
    let r = sqrt_floor((pole.x * pole.x + pole.y * pole.y) as nat) as int;
    Vec3 {
        x: rdiv(-pole.z * u.y, SCALE as int) as i64,
        y: rdiv(pole.z * u.x, SCALE as int) as i64,
        z: r as i64,
    }
}

/// The `k`-th great-circle sample: `cos * u + sin * v` at the `k`-th step.
pub open spec fn gc_sample(pole: Vec3, k: int) -> Vec3 {
    let u = gc_u(pole);
    let v = gc_v(pole, u);
    let c = spec_cos_udeg(k * STEP_UDEG);
    let s = spec_sin_udeg(k * STEP_UDEG);
    Vec3 {
        x: rdiv(c * u.x + s * v.x, SCALE as int) as i64,
        y: rdiv(c * u.y + s * v.y, SCALE as int) as i64,
        z: rdiv(c * u.z + s * v.z, SCALE as int) as i64,
    }
}

/// The in-plane basis of the circle around `pole`, exactly as the mirrors
/// `gc_u` and `gc_v` say.
fn gc_basis(pole: Vec3) -> (r: (Vec3, Vec3))
    requires
        pole.bounded(2_000_000),
    ensures
        r.0 == gc_u(pole),
        r.1 == gc_v(pole, r.0),
        r.0.bounded(SCALE as int),
        r.1.bounded(3_000_000),
{
    proof {
        lemma_mul_abs_bound(pole.x as int, pole.x as int, 2_000_000, 2_000_000);
        lemma_mul_abs_bound(pole.y as int, pole.y as int, 2_000_000, 2_000_000);
        assert(pole.x * pole.x >= 0 && pole.y * pole.y >= 0) by (nonlinear_arith);
    }
    let n2 = (wide_mul(pole.x, pole.x) + wide_mul(pole.y, pole.y)) as u64;
    let r = isqrt(n2);
    let u = if r == 0 {
        Vec3 { x: SCALE, y: 0, z: 0 }
    } else {
        proof {
            crate::fixed::lemma_sqrt_floor(n2 as nat);
            let rr = sqrt_floor(n2 as nat) as int;
            assert(abs(pole.x as int) <= rr && abs(pole.y as int) <= rr) by (nonlinear_arith)
                requires
                    pole.x * pole.x < (rr + 1) * (rr + 1),
                    pole.y * pole.y < (rr + 1) * (rr + 1),
                    rr >= 0,
            ;
            lemma_mul_abs_bound(-pole.y as int, SCALE as int, rr, SCALE as int);
            lemma_mul_abs_bound(pole.x as int, SCALE as int, rr, SCALE as int);
        }
        Vec3 {
            x: rdiv_i64(wide_mul(-pole.y, SCALE), r as i128, SCALE),
            y: rdiv_i64(wide_mul(pole.x, SCALE), r as i128, SCALE),
            z: 0,
        }
    };
    proof {
        lemma_mul_abs_bound(-pole.z as int, u.y as int, 2_000_000, SCALE as int);
        lemma_mul_abs_bound(pole.z as int, u.x as int, 2_000_000, SCALE as int);
        crate::fixed::lemma_sqrt_floor(n2 as nat);
        assert(sqrt_floor(n2 as nat) * sqrt_floor(n2 as nat) <= 8_000_000_000_000);
        assert(sqrt_floor(n2 as nat) <= 3_000_000) by (nonlinear_arith)
            requires
                sqrt_floor(n2 as nat) * sqrt_floor(n2 as nat) <= 8_000_000_000_000,
    ;
    }
    let v = Vec3 {
        x: rdiv_i64(wide_mul(-pole.z, u.y), SCALE as i128, 2_000_000),
        y: rdiv_i64(wide_mul(pole.z, u.x), SCALE as i128, 2_000_000),
        z: r as i64,
    };
    (u, v)
}

/// One fixed-point combination `(c * a + s * b) / SCALE`, per coordinate.
fn combine(c: i64, s: i64, a: Vec3, b: Vec3) -> (r: Vec3)
    requires
        abs(c as int) <= SCALE,
        abs(s as int) <= SCALE,
        a.bounded(4_000_000),
        b.bounded(4_000_000),
    ensures
        r.x == rdiv(c * a.x + s * b.x, SCALE as int),
        r.y == rdiv(c * a.y + s * b.y, SCALE as int),
        r.z == rdiv(c * a.z + s * b.z, SCALE as int),
        r.bounded(8_000_000),
{
    proof {
        lemma_mul_abs_bound(c as int, a.x as int, SCALE as int, 4_000_000);
        lemma_mul_abs_bound(c as int, a.y as int, SCALE as int, 4_000_000);
        lemma_mul_abs_bound(c as int, a.z as int, SCALE as int, 4_000_000);
        lemma_mul_abs_bound(s as int, b.x as int, SCALE as int, 4_000_000);
        lemma_mul_abs_bound(s as int, b.y as int, SCALE as int, 4_000_000);
        lemma_mul_abs_bound(s as int, b.z as int, SCALE as int, 4_000_000);
    }
    Vec3 {
        x: rdiv_i64(wide_mul(c, a.x) + wide_mul(s, b.x), SCALE as i128, 8_000_000),
        y: rdiv_i64(wide_mul(c, a.y) + wide_mul(s, b.y), SCALE as i128, 8_000_000),
        z: rdiv_i64(wide_mul(c, a.z) + wide_mul(s, b.z), SCALE as i128, 8_000_000),
    }
}

/// The closed 201-sample loop of the great circle around `pole`: sample `k`
/// is exactly `gc_sample(pole, k)`, and the loop closes exactly because the
/// angle reduction of a full turn is exact.
pub fn great_circle_points(pole: Vec3) -> (r: Vec<Vec3>)
    requires
        pole.bounded(2_000_000),
    ensures
        r@.len() == CIRCLE_STEPS + 1,
        forall|k: int| 0 <= k <= CIRCLE_STEPS ==> r@[k] == gc_sample(pole, k),
        r@[0] == r@[CIRCLE_STEPS as int],
{
    let (u, v) = gc_basis(pole);
    let mut out: Vec<Vec3> = Vec::new();
    let mut k: i64 = 0;
    while k <= CIRCLE_STEPS
        invariant
            0 <= k <= CIRCLE_STEPS + 1,
            out@.len() == k,
            u == gc_u(pole),
            v == gc_v(pole, u),
            u.bounded(SCALE as int),
            v.bounded(3_000_000),
            forall|j: int| 0 <= j < k ==> out@[j] == gc_sample(pole, j),
        decreases CIRCLE_STEPS + 1 - k,
    {
        let sc = sin_cos_udeg(k * STEP_UDEG);
        let w = combine(sc.1, sc.0, u, v);
        out.push(w);
        k += 1;
    }
    proof {
        crate::trig::lemma_trig_full_turn();
        assert(200 * STEP_UDEG == 360_000_000);
        assert(out@[0] == gc_sample(pole, 0));
        assert(out@[CIRCLE_STEPS as int] == gc_sample(pole, 200));
    }
    out
}

/// The centre of the small circle: the pole scaled by the plane distance.
pub open spec fn sc_center(pole: Vec3, d: i64) -> Vec3 {
    Vec3 {
        x: rdiv(pole.x * d, SCALE as int) as i64,
        y: rdiv(pole.y * d, SCALE as int) as i64,
        z: rdiv(pole.z * d, SCALE as int) as i64,
    }
}

/// The in-plane radius of the small circle: `sqrt(1 - d^2)` in fixed point.
pub open spec fn sc_radius(d: i64) -> int {
    sqrt_floor((SCALE * SCALE - d * d) as nat) as int
}

/// The `k`-th small-circle sample: centre plus the radius times the unit
/// combination of the great-circle basis of the pole.
pub open spec fn sc_sample(pole: Vec3, d: i64, k: int) -> Vec3 {
    let u = gc_u(pole);
    let v = gc_v(pole, u);
    let c = spec_cos_udeg(k * STEP_UDEG);
    let s = spec_sin_udeg(k * STEP_UDEG);
    let ctr = sc_center(pole, d);
    let rad = sc_radius(d);
    Vec3 {
        x: (ctr.x + rdiv(rad * rdiv(c * u.x + s * v.x, SCALE as int), SCALE as int)) as i64,
        y: (ctr.y + rdiv(rad * rdiv(c * u.y + s * v.y, SCALE as int), SCALE as int)) as i64,
        z: (ctr.z + rdiv(rad * rdiv(c * u.z + s * v.z, SCALE as int), SCALE as int)) as i64,
    }
}

/// The closed 201-sample loop of the small circle around `pole` at signed
/// plane distance `d`: sample `k` is exactly `sc_sample(pole, d, k)` and the
/// loop closes exactly.
pub fn small_circle_points(pole: Vec3, d: i64) -> (r: Vec<Vec3>)
    requires
        pole.bounded(2_000_000),
        -SCALE <= d <= SCALE,
    ensures
        r@.len() == CIRCLE_STEPS + 1,
        forall|k: int| 0 <= k <= CIRCLE_STEPS ==> r@[k] == sc_sample(pole, d, k),
        r@[0] == r@[CIRCLE_STEPS as int],
{
    let (u, v) = gc_basis(pole);
    proof {
        lemma_mul_abs_bound(pole.x as int, d as int, 2_000_000, SCALE as int);
        lemma_mul_abs_bound(pole.y as int, d as int, 2_000_000, SCALE as int);
        lemma_mul_abs_bound(pole.z as int, d as int, 2_000_000, SCALE as int);
        lemma_mul_abs_bound(d as int, d as int, SCALE as int, SCALE as int);
    }
    let ctr = Vec3 {
        x: rdiv_i64(wide_mul(pole.x, d), SCALE as i128, 2_000_000),
        y: rdiv_i64(wide_mul(pole.y, d), SCALE as i128, 2_000_000),
        z: rdiv_i64(wide_mul(pole.z, d), SCALE as i128, 2_000_000),
    };
    let rad0 = isqrt((wide_mul(SCALE, SCALE) - wide_mul(d, d)) as u64);
    proof {
        crate::fixed::lemma_sqrt_floor((SCALE * SCALE - d * d) as nat);
        assert(d * d >= 0) by (nonlinear_arith);
        assert(sc_radius(d) <= SCALE) by (nonlinear_arith)
            requires
                sc_radius(d) * sc_radius(d) <= SCALE * SCALE - d * d,
                d * d >= 0,
                sc_radius(d) >= 0,
        ;
    }
    let rad: i64 = rad0 as i64;
    let mut out: Vec<Vec3> = Vec::new();
    let mut k: i64 = 0;
    while k <= CIRCLE_STEPS
        invariant
            0 <= k <= CIRCLE_STEPS + 1,
            out@.len() == k,
            u == gc_u(pole),
            v == gc_v(pole, u),
            u.bounded(SCALE as int),
            v.bounded(3_000_000),
            ctr == sc_center(pole, d),
            ctr.bounded(2_000_000),
            rad == sc_radius(d),
            0 <= rad <= SCALE,
            forall|j: int| 0 <= j < k ==> out@[j] == sc_sample(pole, d, j),
        decreases CIRCLE_STEPS + 1 - k,
    {
        let sc = sin_cos_udeg(k * STEP_UDEG);
        let w = combine(sc.1, sc.0, u, v);
        proof {
            lemma_mul_abs_bound(rad as int, w.x as int, SCALE as int, 8_000_000);
            lemma_mul_abs_bound(rad as int, w.y as int, SCALE as int, 8_000_000);
            lemma_mul_abs_bound(rad as int, w.z as int, SCALE as int, 8_000_000);
        }
        let p = Vec3 {
            x: ctr.x + rdiv_i64(wide_mul(rad, w.x), SCALE as i128, 8_000_000),
            y: ctr.y + rdiv_i64(wide_mul(rad, w.y), SCALE as i128, 8_000_000),
            z: ctr.z + rdiv_i64(wide_mul(rad, w.z), SCALE as i128, 8_000_000),
        };
        out.push(p);
        k += 1;
    }
    proof {
        crate::trig::lemma_trig_full_turn();
        assert(200 * STEP_UDEG == 360_000_000);
        assert(out@[0] == sc_sample(pole, d, 0));
        assert(out@[CIRCLE_STEPS as int] == sc_sample(pole, d, 200));
    }
    out
}

/// The clamped, rescaled cosine of the angle between the endpoints.
pub open spec fn arc_dot(p1: Vec3, p2: Vec3) -> int {
    let pq = rdiv(p1.dot_spec(p2), SCALE as int);
    if pq < -SCALE {
        -SCALE as int
    } else if pq > SCALE {
        SCALE as int
    } else {
        pq
    }
}

/// The tangent direction of the arc at `p1`: the normalized component of
/// `p2` orthogonal to `p1`, or a stable in-plane fallback when the
/// endpoints are nearly parallel or antiparallel.
pub open spec fn arc_tangent(p1: Vec3, p2: Vec3) -> Vec3 {
    let pq = arc_dot(p1, p2);
    if pq > SCALE - 10 || pq < -(SCALE - 10) {
        let r = sqrt_floor((p1.x * p1.x + p1.y * p1.y) as nat) as int;
        if r == 0 {
            Vec3 { x: SCALE, y: 0, z: 0 }
        } else {
            Vec3 {
                x: rdiv(-p1.y * SCALE, r) as i64,
                y: rdiv(p1.x * SCALE, r) as i64,
                z: 0,
            }
        }
    } else {
        let r = sqrt_floor((SCALE * SCALE - pq * pq) as nat) as int;
        Vec3 {
            x: rdiv(p2.x * SCALE - p1.x * pq, r) as i64,
            y: rdiv(p2.y * SCALE - p1.y * pq, r) as i64,
            z: rdiv(p2.z * SCALE - p1.z * pq, r) as i64,
        }
    }
}

/// One arc sample at angle `theta`: `cos(theta) * p1 + sin(theta) * z`.
pub open spec fn arc_sample(p1: Vec3, z: Vec3, theta: int) -> Vec3 {
    let c = spec_cos_udeg(theta);
    let s = spec_sin_udeg(theta);
    Vec3 {
        x: rdiv(c * p1.x + s * z.x, SCALE as int) as i64,
        y: rdiv(c * p1.y + s * z.y, SCALE as int) as i64,
        z: rdiv(c * p1.z + s * z.z, SCALE as int) as i64,
    }
}

/// The geodesic arc from `p1` to `p2`: 201 samples sweeping an angle `t`
/// that inverts the clamped cosine of the endpoints, so the traversed angle
/// is the modelled arc distance; the first sample is exactly `p1`.
pub fn arc_points(p1: Vec3, p2: Vec3) -> (r: Vec<Vec3>)
    requires
        p1.bounded(2_000_000),
        p2.bounded(2_000_000),
    ensures
        r@.len() == CIRCLE_STEPS + 1,
        forall|k: int|
            0 <= k <= CIRCLE_STEPS ==> r@[k] == arc_sample(
                p1,
                arc_tangent(p1, p2),
                rdiv(k * acos_spec(arc_dot(p1, p2)), CIRCLE_STEPS as int),
            ),
        r@[0] == p1,
{
    proof {
        lemma_mul_abs_bound(p1.x as int, p2.x as int, 2_000_000, 2_000_000);
        lemma_mul_abs_bound(p1.y as int, p2.y as int, 2_000_000, 2_000_000);
        lemma_mul_abs_bound(p1.z as int, p2.z as int, 2_000_000, 2_000_000);
        crate::fixed::lemma_rdiv_bound(p1.dot_spec(p2), SCALE as int, 12_000_000);
    }
    let dot = p1.dot(p2);
    let pq = clamp_i64(rdiv_i64(dot as i128, SCALE as i128, 12_000_000), -SCALE, SCALE);
    let z: Vec3 = if pq > SCALE - 10 || pq < -(SCALE - 10) {
        proof {
            lemma_mul_abs_bound(p1.x as int, p1.x as int, 2_000_000, 2_000_000);
            lemma_mul_abs_bound(p1.y as int, p1.y as int, 2_000_000, 2_000_000);
            assert(p1.x * p1.x >= 0 && p1.y * p1.y >= 0) by (nonlinear_arith);
        }
        let n2 = (wide_mul(p1.x, p1.x) + wide_mul(p1.y, p1.y)) as u64;
        let rr = isqrt(n2);
        if rr == 0 {
            Vec3 { x: SCALE, y: 0, z: 0 }
        } else {
            proof {
                crate::fixed::lemma_sqrt_floor(n2 as nat);
                let s0 = sqrt_floor(n2 as nat) as int;
                assert(abs(p1.x as int) <= s0 && abs(p1.y as int) <= s0) by (nonlinear_arith)
                    requires
                        p1.x * p1.x < (s0 + 1) * (s0 + 1),
                        p1.y * p1.y < (s0 + 1) * (s0 + 1),
                        s0 >= 0,
                ;
                lemma_mul_abs_bound(-p1.y as int, SCALE as int, s0, SCALE as int);
                lemma_mul_abs_bound(p1.x as int, SCALE as int, s0, SCALE as int);
            }
            Vec3 {
                x: rdiv_i64(wide_mul(-p1.y, SCALE), rr as i128, SCALE),
                y: rdiv_i64(wide_mul(p1.x, SCALE), rr as i128, SCALE),
                z: 0,
            }
        }
    } else {
        proof {
            lemma_mul_abs_bound(pq as int, pq as int, SCALE as int, SCALE as int);
            assert(pq * pq >= 0) by (nonlinear_arith);
            assert(pq * pq <= (SCALE - 10) * (SCALE - 10)) by (nonlinear_arith)
                requires
                    -(SCALE - 10) <= pq <= SCALE - 10,
                    SCALE == 1_000_000,
            ;
        }
        let rr = isqrt((wide_mul(SCALE, SCALE) - wide_mul(pq, pq)) as u64);
        proof {
            crate::fixed::lemma_sqrt_floor((SCALE * SCALE - pq * pq) as nat);
            let s0 = sqrt_floor((SCALE * SCALE - pq * pq) as nat) as int;
            assert(s0 >= 4472) by (nonlinear_arith)
                requires
                    SCALE * SCALE - pq * pq < (s0 + 1) * (s0 + 1),
                    SCALE * SCALE - pq * pq >= 19_999_900,
                    s0 >= 0,
            ;
            lemma_mul_abs_bound(p2.x as int, SCALE as int, 2_000_000, SCALE as int);
            lemma_mul_abs_bound(p1.x as int, pq as int, 2_000_000, SCALE as int);
            lemma_mul_abs_bound(p2.y as int, SCALE as int, 2_000_000, SCALE as int);
            lemma_mul_abs_bound(p1.y as int, pq as int, 2_000_000, SCALE as int);
            lemma_mul_abs_bound(p2.z as int, SCALE as int, 2_000_000, SCALE as int);
            lemma_mul_abs_bound(p1.z as int, pq as int, 2_000_000, SCALE as int);
            assert(4_000_000_000_000 <= s0 * 1_000_000_000) by (nonlinear_arith)
                requires
                    s0 >= 4472,
            ;
        }
        Vec3 {
            x: rdiv_i64(wide_mul(p2.x, SCALE) - wide_mul(p1.x, pq), rr as i128, 1_000_000_000),
            y: rdiv_i64(wide_mul(p2.y, SCALE) - wide_mul(p1.y, pq), rr as i128, 1_000_000_000),
            z: rdiv_i64(wide_mul(p2.z, SCALE) - wide_mul(p1.z, pq), rr as i128, 1_000_000_000),
        }
    };
    let t = acos_udeg(pq);
    let mut out: Vec<Vec3> = Vec::new();
    let mut k: i64 = 0;
    while k <= CIRCLE_STEPS
        invariant
            0 <= k <= CIRCLE_STEPS + 1,
            out@.len() == k,
            z == arc_tangent(p1, p2),
            z.bounded(1_000_000_000),
            p1.bounded(2_000_000),
            t == acos_spec(arc_dot(p1, p2)),
            0 <= t <= crate::fixed::HALF_TURN,
            forall|j: int|
                0 <= j < k ==> out@[j] == arc_sample(p1, z, rdiv(j * t, CIRCLE_STEPS as int)),
        decreases CIRCLE_STEPS + 1 - k,
    {
        proof {
            lemma_mul_abs_bound(k as int, t as int, 200, 180_000_000);
        }
        let theta = rdiv_i64(wide_mul(k, t), CIRCLE_STEPS as i128, 180_000_000);
        let sc = sin_cos_udeg(theta);
        proof {
            lemma_mul_abs_bound(sc.1 as int, p1.x as int, SCALE as int, 2_000_000);
            lemma_mul_abs_bound(sc.1 as int, p1.y as int, SCALE as int, 2_000_000);
            lemma_mul_abs_bound(sc.1 as int, p1.z as int, SCALE as int, 2_000_000);
            lemma_mul_abs_bound(sc.0 as int, z.x as int, SCALE as int, 1_000_000_000);
            lemma_mul_abs_bound(sc.0 as int, z.y as int, SCALE as int, 1_000_000_000);
            lemma_mul_abs_bound(sc.0 as int, z.z as int, SCALE as int, 1_000_000_000);
        }
        let w = Vec3 {
            x: rdiv_i64(
                wide_mul(sc.1, p1.x) + wide_mul(sc.0, z.x),
                SCALE as i128,
                1_002_000_000,
            ),
            y: rdiv_i64(
                wide_mul(sc.1, p1.y) + wide_mul(sc.0, z.y),
                SCALE as i128,
                1_002_000_000,
            ),
            z: rdiv_i64(
                wide_mul(sc.1, p1.z) + wide_mul(sc.0, z.z),
                SCALE as i128,
                1_002_000_000,
            ),
        };
        out.push(w);
        k += 1;
    }
    proof {
        assert(rdiv(0 * t, 200) == 0);
        crate::trig::lemma_trig_at_zero();
        assert(out@[0] == arc_sample(p1, z, rdiv(0 * t, CIRCLE_STEPS as int)));
        assert(out@[0].x == rdiv(SCALE * p1.x + 0 * z.x, SCALE as int));
        assert(SCALE * p1.x + 0 * z.x == SCALE * p1.x && SCALE * p1.y + 0 * z.y == SCALE * p1.y
            && SCALE * p1.z + 0 * z.z == SCALE * p1.z) by (nonlinear_arith);
        lemma_rdiv_scale_identity(p1.x as int);
        lemma_rdiv_scale_identity(p1.y as int);
        lemma_rdiv_scale_identity(p1.z as int);
        assert(out@[0] == p1);
    }
    out
}

/// Dividing `SCALE * a` by `SCALE` gives back `a` exactly.
proof fn lemma_rdiv_scale_identity(a: int)
    ensures
        rdiv(SCALE * a, SCALE as int) == a,
{
    crate::fixed::lemma_rdiv_error(SCALE * a, SCALE as int);
    let r = rdiv(SCALE * a, SCALE as int);
    broadcast use vstd::arithmetic::mul::lemma_mul_is_commutative;
    broadcast use vstd::arithmetic::mul::lemma_mul_is_distributive_sub_other_way;

    assert(2 * abs(r * SCALE - SCALE * a) <= SCALE);
    assert(r * SCALE - SCALE * a == (r - a) * SCALE);
    if r != a {
        assert(abs((r - a) * SCALE) >= SCALE) by (nonlinear_arith)
            requires
                r != a,
                SCALE == 1_000_000,
        ;
    }
}


/// A coordinate-grid sample before rotation: a meridian at longitude
/// `angle_udeg` sweeps latitude over a half turn from the south pole, a
/// parallel at latitude `angle_udeg` sweeps longitude over a full turn; the
/// components are the usual spherical products of the two angles.
pub open spec fn grid_sample(meridian: bool, angle_udeg: i64, steps: int, k: int) -> Vec3 {
    let swept = if meridian {
        rdiv(k * 180_000_000, steps) - 90_000_000
    } else {
        rdiv(k * 360_000_000, steps)
    };
    let lat = if meridian {
        swept
    } else {
        angle_udeg as int
    };
    let lon = if meridian {
        angle_udeg as int
    } else {
        swept
    };
    let cl = spec_cos_udeg(lon);
    let sl = spec_sin_udeg(lon);
    let ct = spec_cos_udeg(lat);
    let st = spec_sin_udeg(lat);
    Vec3 {
        x: rdiv(cl * ct, SCALE as int) as i64,
        y: rdiv(sl * ct, SCALE as int) as i64,
        z: st as i64,
    }
}

/// One grid line of the latitude/longitude graticule, rotated into the
/// current view: `steps + 1` samples, sample `k` exactly the rotation of
/// `grid_sample(meridian, angle_udeg, steps, k)`.
pub fn grid_line_points(meridian: bool, angle_udeg: i64, steps: usize, q: Quaternion) -> (r: Vec<
    Vec3,
>)
    requires
        1 <= steps <= 1000,
        abs(angle_udeg as int) <= 360_000_000,
        q.bounded(2_000_000),
    ensures
        r@.len() == steps + 1,
        forall|k: int|
            0 <= k <= steps ==> r@[k] == crate::point::rotate_active_spec(
                q,
                grid_sample(meridian, angle_udeg, steps as int, k),
            ),
{
    let mut out: Vec<Vec3> = Vec::new();
    let mut k: usize = 0;
    while k <= steps
        invariant
            0 <= k <= steps + 1,
            1 <= steps <= 1000,
            abs(angle_udeg as int) <= 360_000_000,
            q.bounded(2_000_000),
            out@.len() == k,
            forall|j: int|
                0 <= j < k ==> out@[j] == crate::point::rotate_active_spec(
                    q,
                    grid_sample(meridian, angle_udeg, steps as int, j),
                ),
        decreases steps + 1 - k,
    {
        proof {
            lemma_mul_abs_bound(k as int, 180_000_000, steps as int, 360_000_000);
            lemma_mul_abs_bound(k as int, 360_000_000, steps as int, 360_000_000);
        }
        let swept = if meridian {
            rdiv_i64(wide_mul(k as i64, 180_000_000), steps as i128, 360_000_000) - 90_000_000
        } else {
            rdiv_i64(wide_mul(k as i64, 360_000_000), steps as i128, 360_000_000)
        };
        let (lat, lon) = if meridian {
            (swept, angle_udeg)
        } else {
            (angle_udeg, swept)
        };
        let scl = sin_cos_udeg(lon);
        let sct = sin_cos_udeg(lat);
        proof {
            lemma_mul_abs_bound(scl.1 as int, sct.1 as int, SCALE as int, SCALE as int);
            lemma_mul_abs_bound(scl.0 as int, sct.1 as int, SCALE as int, SCALE as int);
        }
        let p = Vec3 {
            x: rdiv_i64(wide_mul(scl.1, sct.1), SCALE as i128, SCALE),
            y: rdiv_i64(wide_mul(scl.0, sct.1), SCALE as i128, SCALE),
            z: sct.0,
        };
        let rp = q.rotate_point_active(p);
        out.push(rp);
        k += 1;
    }
    out
}


/// The first basis vector is orthogonal to the pole up to rounding: its dot
/// product with the pole, at scale `SCALE * SCALE`, stays within a couple of
/// units of `SCALE` - a relative error of a few millionths. The second
/// basis vector and the samples combined from the pair inherit the same
/// property up to their own single roundings, which the exact sample
/// contracts expose.
pub proof fn lemma_gc_u_orthogonal(pole: Vec3)
    requires
        pole.bounded(SCALE + 4),
    ensures
        abs(gc_u(pole).dot_spec(pole)) <= 2 * SCALE + 8,
{
    let px = pole.x as int;
    let py = pole.y as int;
    let pz = pole.z as int;
    assert(px * px >= 0 && py * py >= 0) by (nonlinear_arith);
    let n2 = px * px + py * py;
    crate::fixed::lemma_sqrt_floor(n2 as nat);
    let r = sqrt_floor(n2 as nat) as int;
    let u = gc_u(pole);
    let d = u.dot_spec(pole);
    if r == 0 {
        assert((r + 1) * (r + 1) == 1) by (nonlinear_arith)
            requires
                r == 0,
        ;
        assert(px == 0 && py == 0) by (nonlinear_arith)
            requires
                px * px + py * py < 1,
        ;
        assert(d == SCALE * px + 0 * py + 0 * pz);
        assert(SCALE * px == 0 && 0 * py == 0 && 0 * pz == 0) by (nonlinear_arith)
            requires
                px == 0,
        ;
    } else {
        assert(abs(px) <= r && abs(py) <= r) by (nonlinear_arith)
            requires
                px * px < (r + 1) * (r + 1),
                py * py < (r + 1) * (r + 1),
                px * px >= 0,
                py * py >= 0,
                r >= 0,
        ;
        lemma_mul_abs_bound(-py, SCALE as int, r, SCALE as int);
        lemma_mul_abs_bound(px, SCALE as int, r, SCALE as int);
        crate::fixed::lemma_rdiv_bound(-py * SCALE, r, SCALE as int);
        crate::fixed::lemma_rdiv_bound(px * SCALE, r, SCALE as int);
        crate::fixed::lemma_rdiv_error(-py * SCALE, r);
        crate::fixed::lemma_rdiv_error(px * SCALE, r);
        let ux = u.x as int;
        let uy = u.y as int;
        assert(ux == rdiv(-py * SCALE, r) && uy == rdiv(px * SCALE, r));
        let e1 = ux * r - (-py * SCALE);
        let e2 = uy * r - px * SCALE;
        assert(2 * abs(e1) <= r && 2 * abs(e2) <= r);
        assert(d == ux * px + uy * py + 0 * pz);
        assert(r * d == e1 * px + e2 * py) by (nonlinear_arith)
            requires
                d == ux * px + uy * py + 0 * pz,
                e1 == ux * r - (-py * SCALE),
                e2 == uy * r - px * SCALE,
        ;
        lemma_mul_abs_bound(e1, px, r, SCALE + 4);
        lemma_mul_abs_bound(e2, py, r, SCALE + 4);
        assert(abs(r * d) <= 2 * (r * (SCALE + 4)));
        assert(abs(d) <= 2 * SCALE + 8) by (nonlinear_arith)
            requires
                abs(r * d) <= 2 * (r * (SCALE + 4)),
                r >= 1,
        ;
    }
}


/// The second basis vector is orthogonal to the pole up to rounding: the
/// exact cross product is orthogonal, and the roundings of its components
/// and of the first basis vector move the dot product by only a handful of
/// units of `SCALE`.
pub proof fn lemma_gc_v_orthogonal(pole: Vec3)
    requires
        pole.bounded(SCALE + 4),
    ensures
        abs(gc_v(pole, gc_u(pole)).dot_spec(pole)) <= 8 * SCALE,
{
    let px = pole.x as int;
    let py = pole.y as int;
    let pz = pole.z as int;
    assert(px * px >= 0 && py * py >= 0) by (nonlinear_arith);
    let n2 = px * px + py * py;
    crate::fixed::lemma_sqrt_floor(n2 as nat);
    let r = sqrt_floor(n2 as nat) as int;
    let u = gc_u(pole);
    let v = gc_v(pole, u);
    let d = v.dot_spec(pole);
    if r == 0 {
        assert((r + 1) * (r + 1) == 1) by (nonlinear_arith)
            requires
                r == 0,
        ;
        assert(px == 0 && py == 0) by (nonlinear_arith)
            requires
                px * px + py * py < 1,
        ;
        assert(d == (v.x as int) * px + (v.y as int) * py + 0 * pz);
        assert((v.x as int) * px == 0 && (v.y as int) * py == 0 && 0 * pz == 0)
            by (nonlinear_arith)
            requires
                px == 0,
                py == 0,
        ;
    } else {
        assert(abs(px) <= r && abs(py) <= r) by (nonlinear_arith)
            requires
                px * px < (r + 1) * (r + 1),
                py * py < (r + 1) * (r + 1),
                px * px >= 0,
                py * py >= 0,
                r >= 0,
        ;
        lemma_mul_abs_bound(-py, SCALE as int, r, SCALE as int);
        lemma_mul_abs_bound(px, SCALE as int, r, SCALE as int);
        crate::fixed::lemma_rdiv_bound(-py * SCALE, r, SCALE as int);
        crate::fixed::lemma_rdiv_bound(px * SCALE, r, SCALE as int);
        crate::fixed::lemma_rdiv_error(-py * SCALE, r);
        crate::fixed::lemma_rdiv_error(px * SCALE, r);
        let ux = u.x as int;
        let uy = u.y as int;
        assert(ux == rdiv(-py * SCALE, r) && uy == rdiv(px * SCALE, r));
        let e1 = ux * r - (-py * SCALE);
        let e2 = uy * r - px * SCALE;
        assert(2 * abs(e1) <= r && 2 * abs(e2) <= r);
        lemma_mul_abs_bound(-pz, uy, SCALE + 4, SCALE as int);
        lemma_mul_abs_bound(pz, ux, SCALE + 4, SCALE as int);
        assert((SCALE + 4) * SCALE <= SCALE * (SCALE + 4)) by (nonlinear_arith);
        assert(n2 <= 2 * ((SCALE + 4) * (SCALE + 4))) by (nonlinear_arith)
            requires
                n2 == px * px + py * py,
                abs(px) <= SCALE + 4,
                abs(py) <= SCALE + 4,
        ;
        assert(r <= 2_000_000) by (nonlinear_arith)
            requires
                r * r <= n2,
                n2 <= 2 * ((SCALE + 4) * (SCALE + 4)),
                r >= 0,
        ;
        crate::fixed::lemma_rdiv_bound(-pz * uy, SCALE as int, SCALE + 4);
        crate::fixed::lemma_rdiv_bound(pz * ux, SCALE as int, SCALE + 4);
        crate::fixed::lemma_rdiv_error(-pz * uy, SCALE as int);
        crate::fixed::lemma_rdiv_error(pz * ux, SCALE as int);
        let vx = v.x as int;
        let vy = v.y as int;
        assert(vx == rdiv(-pz * uy, SCALE as int) && vy == rdiv(pz * ux, SCALE as int) && v.z as int
            == r);
        let f1 = vx * SCALE - (-pz * uy);
        let f2 = vy * SCALE - pz * ux;
        assert(2 * abs(f1) <= SCALE && 2 * abs(f2) <= SCALE);
        // the in-plane determinant of u against the pole is -SCALE * r up
        // to the rounding of u
        let g = ux * py - uy * px + SCALE * r;
        assert(r * g == e1 * py - e2 * px + SCALE * (r * r - n2)) by (nonlinear_arith)
            requires
                g == ux * py - uy * px + SCALE * r,
                e1 == ux * r - (-py * SCALE),
                e2 == uy * r - px * SCALE,
                n2 == px * px + py * py,
        ;
        lemma_mul_abs_bound(e1, py, r, SCALE + 4);
        lemma_mul_abs_bound(e2, px, r, SCALE + 4);
        assert(0 <= n2 - r * r <= 2 * r) by (nonlinear_arith)
            requires
                r * r <= n2,
                n2 < (r + 1) * (r + 1),
        ;
        assert(abs(SCALE * (r * r - n2)) <= SCALE * (2 * r)) by (nonlinear_arith)
            requires
                0 <= n2 - r * r <= 2 * r,
        ;
        assert(abs(r * g) <= 2 * (r * (SCALE + 4)) + SCALE * (2 * r));
        assert(abs(g) <= 4 * SCALE + 8) by (nonlinear_arith)
            requires
                abs(r * g) <= 2 * (r * (SCALE + 4)) + SCALE * (2 * r),
                r >= 1,
        ;
        // scale the dot product up and substitute both roundings
        assert(d == vx * px + vy * py + r * pz);
        assert(SCALE * d == (vx * SCALE) * px + (vy * SCALE) * py + (SCALE * r) * pz)
            by (nonlinear_arith)
            requires
                d == vx * px + vy * py + r * pz,
        ;
        assert(vx * SCALE == -pz * uy + f1 && vy * SCALE == pz * ux + f2);
        assert(pz * g == pz * (ux * py) - pz * (uy * px) + pz * (SCALE * r)) by (nonlinear_arith)
            requires
                g == ux * py - uy * px + SCALE * r,
        ;
        assert((-pz * uy + f1) * px == -(pz * (uy * px)) + f1 * px) by (nonlinear_arith);
        assert((pz * ux + f2) * py == pz * (ux * py) + f2 * py) by (nonlinear_arith);
        assert((SCALE * r) * pz == pz * (SCALE * r)) by (nonlinear_arith);
        assert(SCALE * d == pz * g + f1 * px + f2 * py);
        lemma_mul_abs_bound(pz, g, SCALE + 4, 4 * SCALE + 8);
        lemma_mul_abs_bound(f1, px, SCALE as int, SCALE + 4);
        lemma_mul_abs_bound(f2, py, SCALE as int, SCALE + 4);
        assert(abs(SCALE * d) <= (SCALE + 4) * (4 * SCALE + 8) + 2 * (SCALE * (SCALE + 4)));
        assert(abs(d) <= 8 * SCALE) by (nonlinear_arith)
            requires
                abs(SCALE * d) <= (SCALE + 4) * (4 * SCALE + 8) + 2 * (SCALE * (SCALE + 4)),
                SCALE == 1_000_000,
        ;
    }
}


/// The basis pair stays within a couple of units of the unit scale.
pub proof fn lemma_gc_basis_bounded(pole: Vec3)
    requires
        pole.bounded(SCALE + 4),
    ensures
        gc_u(pole).bounded(SCALE as int),
        gc_v(pole, gc_u(pole)).bounded(2_000_000),
{
    let px = pole.x as int;
    let py = pole.y as int;
    let pz = pole.z as int;
    assert(px * px >= 0 && py * py >= 0) by (nonlinear_arith);
    let n2 = px * px + py * py;
    crate::fixed::lemma_sqrt_floor(n2 as nat);
    let r = sqrt_floor(n2 as nat) as int;
    let u = gc_u(pole);
    assert(n2 <= 2 * ((SCALE + 4) * (SCALE + 4))) by (nonlinear_arith)
        requires
            n2 == px * px + py * py,
            abs(px) <= SCALE + 4,
            abs(py) <= SCALE + 4,
    ;
    assert(r <= 2_000_000) by (nonlinear_arith)
        requires
            r * r <= n2,
            n2 <= 2 * ((SCALE + 4) * (SCALE + 4)),
            r >= 0,
    ;
    if r == 0 {
        assert(u.bounded(SCALE as int));
        assert(-pz * (u.y as int) == 0 && abs(pz * (u.x as int)) <= (SCALE + 4) * SCALE)
            by (nonlinear_arith)
            requires
                u.y as int == 0,
                u.x as int == SCALE,
                abs(pz) <= SCALE + 4,
        ;
        assert((SCALE + 4) * SCALE <= SCALE * (SCALE + 4)) by (nonlinear_arith);
        assert(rdiv(0, SCALE as int) == 0);
        crate::fixed::lemma_rdiv_bound(pz * (u.x as int), SCALE as int, SCALE + 4);
    } else {
        assert(abs(px) <= r && abs(py) <= r) by (nonlinear_arith)
            requires
                px * px < (r + 1) * (r + 1),
                py * py < (r + 1) * (r + 1),
                px * px >= 0,
                py * py >= 0,
                r >= 0,
        ;
        lemma_mul_abs_bound(-py, SCALE as int, r, SCALE as int);
        lemma_mul_abs_bound(px, SCALE as int, r, SCALE as int);
        crate::fixed::lemma_rdiv_bound(-py * SCALE, r, SCALE as int);
        crate::fixed::lemma_rdiv_bound(px * SCALE, r, SCALE as int);
        lemma_mul_abs_bound(-pz, u.y as int, SCALE + 4, SCALE as int);
        lemma_mul_abs_bound(pz, u.x as int, SCALE + 4, SCALE as int);
        assert((SCALE + 4) * SCALE <= SCALE * (SCALE + 4)) by (nonlinear_arith);
        crate::fixed::lemma_rdiv_bound(-pz * (u.y as int), SCALE as int, SCALE + 4);
        crate::fixed::lemma_rdiv_bound(pz * (u.x as int), SCALE as int, SCALE + 4);
    }
}

/// Every great-circle sample lies on the pole's plane up to rounding: the
/// dot product of any sample with the pole, at scale `SCALE * SCALE`, stays
/// within a handful of units of `SCALE` - a relative error of about a
/// dozen millionths of the radius.
pub proof fn lemma_gc_sample_on_plane(pole: Vec3, k: int)
    requires
        pole.bounded(SCALE + 4),
    ensures
        abs(gc_sample(pole, k).dot_spec(pole)) <= 14 * SCALE,
{
    lemma_gc_basis_bounded(pole);
    lemma_gc_u_orthogonal(pole);
    lemma_gc_v_orthogonal(pole);
    let px = pole.x as int;
    let py = pole.y as int;
    let pz = pole.z as int;
    let u = gc_u(pole);
    let v = gc_v(pole, u);
    let c = spec_cos_udeg(k * STEP_UDEG);
    let s = spec_sin_udeg(k * STEP_UDEG);
    crate::trig::lemma_sin_cos_range(k * STEP_UDEG);
    let w = gc_sample(pole, k);
    lemma_mul_abs_bound(c, u.x as int, SCALE as int, SCALE as int);
    lemma_mul_abs_bound(c, u.y as int, SCALE as int, SCALE as int);
    lemma_mul_abs_bound(c, u.z as int, SCALE as int, SCALE as int);
    lemma_mul_abs_bound(s, v.x as int, SCALE as int, 2_000_000);
    lemma_mul_abs_bound(s, v.y as int, SCALE as int, 2_000_000);
    lemma_mul_abs_bound(s, v.z as int, SCALE as int, 2_000_000);
    assert(SCALE * SCALE + SCALE * 2_000_000 <= SCALE * 3_000_000) by (nonlinear_arith);
    crate::fixed::lemma_rdiv_bound(c * u.x + s * v.x, SCALE as int, 3_000_000);
    crate::fixed::lemma_rdiv_bound(c * u.y + s * v.y, SCALE as int, 3_000_000);
    crate::fixed::lemma_rdiv_bound(c * u.z + s * v.z, SCALE as int, 3_000_000);
    crate::fixed::lemma_rdiv_error(c * u.x + s * v.x, SCALE as int);
    crate::fixed::lemma_rdiv_error(c * u.y + s * v.y, SCALE as int);
    crate::fixed::lemma_rdiv_error(c * u.z + s * v.z, SCALE as int);
    let wx = w.x as int;
    let wy = w.y as int;
    let wz = w.z as int;
    assert(wx == rdiv(c * u.x + s * v.x, SCALE as int) && wy == rdiv(
        c * u.y + s * v.y,
        SCALE as int,
    ) && wz == rdiv(c * u.z + s * v.z, SCALE as int));
    let h1 = wx * SCALE - (c * u.x + s * v.x);
    let h2 = wy * SCALE - (c * u.y + s * v.y);
    let h3 = wz * SCALE - (c * u.z + s * v.z);
    assert(2 * abs(h1) <= SCALE && 2 * abs(h2) <= SCALE && 2 * abs(h3) <= SCALE);
    let du = u.dot_spec(pole);
    let dv = v.dot_spec(pole);
    let d = w.dot_spec(pole);
    assert(SCALE * d == (wx * SCALE) * px + (wy * SCALE) * py + (wz * SCALE) * pz)
        by (nonlinear_arith)
        requires
            d == wx * px + wy * py + wz * pz,
    ;
    assert((wx * SCALE) * px == c * ((u.x as int) * px) + s * ((v.x as int) * px) + h1 * px)
        by (nonlinear_arith)
        requires
            wx * SCALE == c * (u.x as int) + s * (v.x as int) + h1,
    ;
    assert((wy * SCALE) * py == c * ((u.y as int) * py) + s * ((v.y as int) * py) + h2 * py)
        by (nonlinear_arith)
        requires
            wy * SCALE == c * (u.y as int) + s * (v.y as int) + h2,
    ;
    assert((wz * SCALE) * pz == c * ((u.z as int) * pz) + s * ((v.z as int) * pz) + h3 * pz)
        by (nonlinear_arith)
        requires
            wz * SCALE == c * (u.z as int) + s * (v.z as int) + h3,
    ;
    assert(c * du == c * ((u.x as int) * px) + c * ((u.y as int) * py) + c * ((u.z as int) * pz))
        by (nonlinear_arith)
        requires
            du == (u.x as int) * px + (u.y as int) * py + (u.z as int) * pz,
    ;
    assert(s * dv == s * ((v.x as int) * px) + s * ((v.y as int) * py) + s * ((v.z as int) * pz))
        by (nonlinear_arith)
        requires
            dv == (v.x as int) * px + (v.y as int) * py + (v.z as int) * pz,
    ;
    assert(SCALE * d == c * du + s * dv + h1 * px + h2 * py + h3 * pz);
    lemma_mul_abs_bound(c, du, SCALE as int, 2 * SCALE + 8);
    lemma_mul_abs_bound(s, dv, SCALE as int, 8 * SCALE);
    lemma_mul_abs_bound(h1, px, SCALE as int, SCALE + 4);
    lemma_mul_abs_bound(h2, py, SCALE as int, SCALE + 4);
    lemma_mul_abs_bound(h3, pz, SCALE as int, SCALE + 4);
    assert(abs(SCALE * d) <= SCALE * (2 * SCALE + 8) + SCALE * (8 * SCALE) + 3 * (SCALE * (SCALE
        + 4)));
    assert(abs(d) <= 14 * SCALE) by (nonlinear_arith)
        requires
            abs(SCALE * d) <= SCALE * (2 * SCALE + 8) + SCALE * (8 * SCALE) + 3 * (SCALE * (SCALE
                + 4)),
            SCALE == 1_000_000,
    ;
}

} // verus!
