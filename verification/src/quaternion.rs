//! Quaternion orientation algebra in fixed point.
//!
//! A `Quaternion` stores its four components at scale `SCALE`; composition
//! rounds each Hamilton-product component once. Active rotation carries a
//! point from object space into the view, passive rotation maps a view-space
//! point back into object space; for a unit quaternion the two compose to
//! the identity, which `lemma_round_trip_exact` proves of the exact algebra.

use crate::fixed::{lemma_mul_abs_bound, rdiv, rdiv_i64, wide_mul, FULL_TURN, QUARTER_TURN, SCALE};
use crate::trig::{
    acos_spec, asin_udeg, atan2_spec, atan2_udeg, clamp_spec, sin_cos_udeg, spec_cos_udeg,
    spec_sin_udeg,
};
use crate::vec3::Vec3;
use vstd::math::abs;
use vstd::prelude::*;

verus! {

/// An orientation: a quaternion `(w, x, y, z)` at scale `SCALE`.
#[derive(Clone, Copy, PartialEq, Eq, Structural, Debug)]
pub struct Quaternion {
    pub w: i64,
    pub x: i64,
    pub y: i64,
    pub z: i64,
}

/// A quaternion over unbounded integers: the exact algebra that the
/// executable, rounding functions are measured against.
pub ghost struct QRaw {
    pub w: int,
    pub x: int,
    pub y: int,
    pub z: int,
}

/// The Hamilton product, exact.
pub open spec fn qmul(a: QRaw, b: QRaw) -> QRaw {
    QRaw {
        w: a.w * b.w - a.x * b.x - a.y * b.y - a.z * b.z,
        x: a.w * b.x + a.x * b.w + a.y * b.z - a.z * b.y,
        y: a.w * b.y - a.x * b.z + a.y * b.w + a.z * b.x,
        z: a.w * b.z + a.x * b.y - a.y * b.x + a.z * b.w,
    }
}

pub open spec fn qconj(a: QRaw) -> QRaw {
    QRaw { w: a.w, x: -a.x, y: -a.y, z: -a.z }
}

pub open spec fn qnorm2(a: QRaw) -> int {
    a.w * a.w + a.x * a.x + a.y * a.y + a.z * a.z
}

pub open spec fn qscale(s: int, a: QRaw) -> QRaw {
    QRaw { w: s * a.w, x: s * a.x, y: s * a.y, z: s * a.z }
}

pub open spec fn qadd(a: QRaw, b: QRaw) -> QRaw {
    QRaw { w: a.w + b.w, x: a.x + b.x, y: a.y + b.y, z: a.z + b.z }
}

/// A point embedded as a pure quaternion.
pub open spec fn qpure(v: Vec3) -> QRaw {
    QRaw { w: 0, x: v.x as int, y: v.y as int, z: v.z as int }
}

/// Exact active rotation before rounding: `q * v * conj(q)`, scale `SCALE^3`.
pub open spec fn act_raw(q: QRaw, v: QRaw) -> QRaw {
    qmul(qmul(q, v), qconj(q))
}

/// Exact passive rotation before rounding: `conj(q) * v * q`.
pub open spec fn pass_raw(q: QRaw, v: QRaw) -> QRaw {
    qmul(qmul(qconj(q), v), q)
}

/// Every component of `a` has magnitude at most `b`.
pub open spec fn qbounded(a: QRaw, b: int) -> bool {
    abs(a.w) <= b && abs(a.x) <= b && abs(a.y) <= b && abs(a.z) <= b
}

/// The Hamilton product is associative.
pub proof fn lemma_qmul_assoc(a: QRaw, b: QRaw, c: QRaw)
    ensures
        qmul(qmul(a, b), c) == qmul(a, qmul(b, c)),
{
    lemma_qmul_assoc_w(a, b, c);
    lemma_qmul_assoc_x(a, b, c);
    lemma_qmul_assoc_y(a, b, c);
    lemma_qmul_assoc_z(a, b, c);
}

proof fn lemma_qmul_assoc_w(a: QRaw, b: QRaw, c: QRaw)
    ensures
        qmul(qmul(a, b), c).w == qmul(a, qmul(b, c)).w,
{
    broadcast use vstd::arithmetic::mul::group_mul_is_commutative_and_distributive;
    broadcast use vstd::arithmetic::mul::lemma_mul_is_associative;

}

proof fn lemma_qmul_assoc_x(a: QRaw, b: QRaw, c: QRaw)
    ensures
        qmul(qmul(a, b), c).x == qmul(a, qmul(b, c)).x,
{
    broadcast use vstd::arithmetic::mul::group_mul_is_commutative_and_distributive;
    broadcast use vstd::arithmetic::mul::lemma_mul_is_associative;

}

proof fn lemma_qmul_assoc_y(a: QRaw, b: QRaw, c: QRaw)
    ensures
        qmul(qmul(a, b), c).y == qmul(a, qmul(b, c)).y,
{
    broadcast use vstd::arithmetic::mul::group_mul_is_commutative_and_distributive;
    broadcast use vstd::arithmetic::mul::lemma_mul_is_associative;

}

proof fn lemma_qmul_assoc_z(a: QRaw, b: QRaw, c: QRaw)
    ensures
        qmul(qmul(a, b), c).z == qmul(a, qmul(b, c)).z,
{
    broadcast use vstd::arithmetic::mul::group_mul_is_commutative_and_distributive;
    broadcast use vstd::arithmetic::mul::lemma_mul_is_associative;

}


/// The conjugate multiplies to the squared norm, a scalar.
pub proof fn lemma_qconj_mul(q: QRaw)
    ensures
        qmul(qconj(q), q) == (QRaw { w: qnorm2(q), x: 0, y: 0, z: 0 }),
        qmul(q, qconj(q)) == (QRaw { w: qnorm2(q), x: 0, y: 0, z: 0 }),
{
    broadcast use vstd::arithmetic::mul::lemma_mul_is_commutative;
    broadcast use vstd::arithmetic::mul::lemma_mul_unary_negation;

}

/// Multiplying by a scalar quaternion scales, on either side.
pub proof fn lemma_qmul_scalar(s: int, a: QRaw)
    ensures
        qmul(QRaw { w: s, x: 0, y: 0, z: 0 }, a) == qscale(s, a),
        qmul(a, QRaw { w: s, x: 0, y: 0, z: 0 }) == qscale(s, a),
{
    broadcast use vstd::arithmetic::mul::lemma_mul_is_commutative;
    broadcast use vstd::arithmetic::mul::lemma_mul_by_zero_is_zero;

}

/// A scalar factor moves through the Hamilton product.
pub proof fn lemma_qmul_scale_left(s: int, a: QRaw, b: QRaw)
    ensures
        qmul(qscale(s, a), b) == qscale(s, qmul(a, b)),
{
    lemma_qmul_scale_left_wx(s, a, b);
    lemma_qmul_scale_left_yz(s, a, b);
}

proof fn lemma_qmul_scale_left_wx(s: int, a: QRaw, b: QRaw)
    ensures
        qmul(qscale(s, a), b).w == qscale(s, qmul(a, b)).w,
        qmul(qscale(s, a), b).x == qscale(s, qmul(a, b)).x,
{
    broadcast use vstd::arithmetic::mul::group_mul_is_commutative_and_distributive;
    broadcast use vstd::arithmetic::mul::lemma_mul_is_associative;

}

proof fn lemma_qmul_scale_left_yz(s: int, a: QRaw, b: QRaw)
    ensures
        qmul(qscale(s, a), b).y == qscale(s, qmul(a, b)).y,
        qmul(qscale(s, a), b).z == qscale(s, qmul(a, b)).z,
{
    broadcast use vstd::arithmetic::mul::group_mul_is_commutative_and_distributive;
    broadcast use vstd::arithmetic::mul::lemma_mul_is_associative;

}

/// Composed scalings multiply.
pub proof fn lemma_qscale_compose(s: int, t: int, a: QRaw)
    ensures
        qscale(s, qscale(t, a)) == qscale(s * t, a),
{
    broadcast use vstd::arithmetic::mul::lemma_mul_is_associative;

}

/// Round trip of the exact algebra: for any quaternion, passively rotating
/// an actively rotated quaternion scales it by the squared norm twice. For
/// a unit quaternion this is the identity, up to the global scale.
pub proof fn lemma_round_trip_exact(q: QRaw, v: QRaw)
    ensures
        pass_raw(q, act_raw(q, v)) == qscale(qnorm2(q) * qnorm2(q), v),
{
    let n = qnorm2(q);
    let nq = QRaw { w: n, x: 0, y: 0, z: 0 };
    let cj = qconj(q);
    let act = act_raw(q, v);
    lemma_qmul_assoc(cj, qmul(q, v), cj);
    lemma_qmul_assoc(cj, q, v);
    lemma_qconj_mul(q);
    lemma_qmul_scalar(n, v);
    assert(qmul(cj, act) == qmul(qscale(n, v), cj));
    lemma_qmul_assoc(qscale(n, v), cj, q);
    lemma_qmul_scale_left(n, v, qmul(cj, q));
    lemma_qmul_scalar(n, v);
    assert(pass_raw(q, act) == qscale(n, qmul(v, nq)));
    assert(qmul(v, nq) == qscale(n, v));
    lemma_qscale_compose(n, n, v);
}

/// Magnitude bounds for every pairwise product of two quaternions'
/// components: what the overflow checks of the executable products need.
pub proof fn lemma_qmul_products_bound(a: QRaw, b: QRaw, ba: int, bb: int)
    requires
        qbounded(a, ba),
        qbounded(b, bb),
        ba >= 0,
        bb >= 0,
    ensures
        abs(a.w * b.w) <= ba * bb,
        abs(a.w * b.x) <= ba * bb,
        abs(a.w * b.y) <= ba * bb,
        abs(a.w * b.z) <= ba * bb,
        abs(a.x * b.w) <= ba * bb,
        abs(a.x * b.x) <= ba * bb,
        abs(a.x * b.y) <= ba * bb,
        abs(a.x * b.z) <= ba * bb,
        abs(a.y * b.w) <= ba * bb,
        abs(a.y * b.x) <= ba * bb,
        abs(a.y * b.y) <= ba * bb,
        abs(a.y * b.z) <= ba * bb,
        abs(a.z * b.w) <= ba * bb,
        abs(a.z * b.x) <= ba * bb,
        abs(a.z * b.y) <= ba * bb,
        abs(a.z * b.z) <= ba * bb,
{
    lemma_mul_abs_bound(a.w, b.w, ba, bb);
    lemma_mul_abs_bound(a.w, b.x, ba, bb);
    lemma_mul_abs_bound(a.w, b.y, ba, bb);
    lemma_mul_abs_bound(a.w, b.z, ba, bb);
    lemma_mul_abs_bound(a.x, b.w, ba, bb);
    lemma_mul_abs_bound(a.x, b.x, ba, bb);
    lemma_mul_abs_bound(a.x, b.y, ba, bb);
    lemma_mul_abs_bound(a.x, b.z, ba, bb);
    lemma_mul_abs_bound(a.y, b.w, ba, bb);
    lemma_mul_abs_bound(a.y, b.x, ba, bb);
    lemma_mul_abs_bound(a.y, b.y, ba, bb);
    lemma_mul_abs_bound(a.y, b.z, ba, bb);
    lemma_mul_abs_bound(a.z, b.w, ba, bb);
    lemma_mul_abs_bound(a.z, b.x, ba, bb);
    lemma_mul_abs_bound(a.z, b.y, ba, bb);
    lemma_mul_abs_bound(a.z, b.z, ba, bb);
}

/// Componentwise bound on the Hamilton product: four terms, each a product
/// of two bounded factors.
pub proof fn lemma_qmul_bound(a: QRaw, b: QRaw, ba: int, bb: int)
    requires
        qbounded(a, ba),
        qbounded(b, bb),
        ba >= 0,
        bb >= 0,
    ensures
        qbounded(qmul(a, b), 4 * (ba * bb)),
{
    lemma_mul_abs_bound(a.w, b.w, ba, bb);
    lemma_mul_abs_bound(a.x, b.x, ba, bb);
    lemma_mul_abs_bound(a.y, b.y, ba, bb);
    lemma_mul_abs_bound(a.z, b.z, ba, bb);
    lemma_mul_abs_bound(a.w, b.x, ba, bb);
    lemma_mul_abs_bound(a.x, b.w, ba, bb);
    lemma_mul_abs_bound(a.y, b.z, ba, bb);
    lemma_mul_abs_bound(a.z, b.y, ba, bb);
    lemma_mul_abs_bound(a.w, b.y, ba, bb);
    lemma_mul_abs_bound(a.x, b.z, ba, bb);
    lemma_mul_abs_bound(a.y, b.w, ba, bb);
    lemma_mul_abs_bound(a.z, b.x, ba, bb);
    lemma_mul_abs_bound(a.w, b.z, ba, bb);
    lemma_mul_abs_bound(a.x, b.y, ba, bb);
    lemma_mul_abs_bound(a.y, b.x, ba, bb);
    lemma_mul_abs_bound(a.z, b.w, ba, bb);
}

impl Quaternion {
    /// The exact integer view of this quaternion.
    pub open spec fn raw(self) -> QRaw {
        QRaw { w: self.w as int, x: self.x as int, y: self.y as int, z: self.z as int }
    }

    pub open spec fn bounded(self, b: int) -> bool {
        qbounded(self.raw(), b)
    }

    /// A unit quaternion up to the fixed-point slack.
    pub open spec fn is_unit(self) -> bool {
        &&& self.bounded(SCALE as int + 4)
        &&& abs(qnorm2(self.raw()) - SCALE * SCALE) <= crate::vec3::UNIT_SLACK
    }

    /// The rotation that leaves every point in place.
    pub fn identity() -> (r: Quaternion)
        ensures
            r == (Quaternion { w: SCALE, x: 0, y: 0, z: 0 }),
            r.is_unit(),
    {
        proof {
            assert(SCALE * SCALE - SCALE * SCALE == 0) by (nonlinear_arith);
        }
        Quaternion { w: SCALE, x: 0, y: 0, z: 0 }
    }

    /// The inverse orientation of a unit quaternion.
    pub fn conjugate(self) -> (r: Quaternion)
        requires
            self.bounded(2_000_000),
        ensures
            r.raw() == qconj(self.raw()),
            r.bounded(2_000_000),
    {
        Quaternion { w: self.w, x: -self.x, y: -self.y, z: -self.z }
    }

    /// The Hamilton product, each component rounded once back to `SCALE`.
    /// Composing an incremental rotation `r` onto an orientation `o` is
    /// `r.multiply(o)`.
    pub fn multiply(self, other: Quaternion) -> (r: Quaternion)
        requires
            self.bounded(2_000_000),
            other.bounded(2_000_000),
        ensures
            r.w == rdiv(qmul(self.raw(), other.raw()).w, SCALE as int),
            r.x == rdiv(qmul(self.raw(), other.raw()).x, SCALE as int),
            r.y == rdiv(qmul(self.raw(), other.raw()).y, SCALE as int),
            r.z == rdiv(qmul(self.raw(), other.raw()).z, SCALE as int),
            r.bounded(16_000_000),
    {
        proof {
            lemma_qmul_bound(self.raw(), other.raw(), 2_000_000, 2_000_000);
            lemma_qmul_products_bound(self.raw(), other.raw(), 2_000_000, 2_000_000);
        }
        let a = self;
        let b = other;
        Quaternion {
            w: rdiv_i64(
                wide_mul(a.w, b.w) - wide_mul(a.x, b.x) - wide_mul(a.y, b.y) - wide_mul(a.z, b.z),
                SCALE as i128,
                16_000_000,
            ),
            x: rdiv_i64(
                wide_mul(a.w, b.x) + wide_mul(a.x, b.w) + wide_mul(a.y, b.z) - wide_mul(a.z, b.y),
                SCALE as i128,
                16_000_000,
            ),
            y: rdiv_i64(
                wide_mul(a.w, b.y) - wide_mul(a.x, b.z) + wide_mul(a.y, b.w) + wide_mul(a.z, b.x),
                SCALE as i128,
                16_000_000,
            ),
            z: rdiv_i64(
                wide_mul(a.w, b.z) + wide_mul(a.x, b.y) - wide_mul(a.y, b.x) + wide_mul(a.z, b.w),
                SCALE as i128,
                16_000_000,
            ),
        }
    }

    /// Actively rotate a point from object space into the view: the exact
    /// `q * p * conj(q)` at scale `SCALE^3`, rounded once per coordinate.
    pub fn rotate_point_active(self, p: Vec3) -> (r: Vec3)
        requires
            self.bounded(2_000_000),
            p.bounded(2_000_000),
        ensures
            r.x == rdiv(act_raw(self.raw(), qpure(p)).x, SCALE * SCALE),
            r.y == rdiv(act_raw(self.raw(), qpure(p)).y, SCALE * SCALE),
            r.z == rdiv(act_raw(self.raw(), qpure(p)).z, SCALE * SCALE),
            r.bounded(128_000_000),
    {
        self.mul_wide_pure(p, false)
    }

    /// Passively rotate a view-space point back into object space: the exact
    /// `conj(q) * p * q`, rounded once per coordinate.
    pub fn rotate_point_passive(self, p: Vec3) -> (r: Vec3)
        requires
            self.bounded(2_000_000),
            p.bounded(2_000_000),
        ensures
            r.x == rdiv(pass_raw(self.raw(), qpure(p)).x, SCALE * SCALE),
            r.y == rdiv(pass_raw(self.raw(), qpure(p)).y, SCALE * SCALE),
            r.z == rdiv(pass_raw(self.raw(), qpure(p)).z, SCALE * SCALE),
            r.bounded(128_000_000),
    {
        self.mul_wide_pure(p, true)
    }

    /// Shared body of the two rotations: sandwich the pure quaternion of `p`
    /// between `q` and its conjugate (or the other way round for `passive`),
    /// exactly in wide integers, rounding once at the end.
    fn mul_wide_pure(self, p: Vec3, passive: bool) -> (r: Vec3)
        requires
            self.bounded(2_000_000),
            p.bounded(2_000_000),
        ensures
            !passive ==> r.x == rdiv(act_raw(self.raw(), qpure(p)).x, SCALE * SCALE) && r.y == rdiv(
                act_raw(self.raw(), qpure(p)).y,
                SCALE * SCALE,
            ) && r.z == rdiv(act_raw(self.raw(), qpure(p)).z, SCALE * SCALE),
            passive ==> r.x == rdiv(pass_raw(self.raw(), qpure(p)).x, SCALE * SCALE) && r.y == rdiv(
                pass_raw(self.raw(), qpure(p)).y,
                SCALE * SCALE,
            ) && r.z == rdiv(pass_raw(self.raw(), qpure(p)).z, SCALE * SCALE),
            r.bounded(128_000_000),
    {
        let (first, last) = if passive {
            (self.conjugate(), self)
        } else {
            (self, self.conjugate())
        };
        proof {
            lemma_qmul_bound(first.raw(), qpure(p), 2_000_000, 2_000_000);
            lemma_qmul_products_bound(first.raw(), qpure(p), 2_000_000, 2_000_000);
        }
        let mw = wide_mul(first.w, 0) - wide_mul(first.x, p.x) - wide_mul(first.y, p.y)
            - wide_mul(first.z, p.z);
        let mx = wide_mul(first.w, p.x) + wide_mul(first.x, 0) + wide_mul(first.y, p.z)
            - wide_mul(first.z, p.y);
        let my = wide_mul(first.w, p.y) - wide_mul(first.x, p.z) + wide_mul(first.y, 0)
            + wide_mul(first.z, p.x);
        let mz = wide_mul(first.w, p.z) + wide_mul(first.x, p.y) - wide_mul(first.y, p.x)
            + wide_mul(first.z, 0);
        let m = Quaternion { w: mw as i64, x: mx as i64, y: my as i64, z: mz as i64 };
        proof {
            assert(m.raw() == qmul(first.raw(), qpure(p)));
            lemma_qmul_bound(m.raw(), last.raw(), 16_000_000_000_000, 2_000_000);
            lemma_qmul_products_bound(m.raw(), last.raw(), 16_000_000_000_000, 2_000_000);
        }
        let rx = wide_mul(m.w, last.x) + wide_mul(m.x, last.w) + wide_mul(m.y, last.z) - wide_mul(
            m.z,
            last.y,
        );
        let ry = wide_mul(m.w, last.y) - wide_mul(m.x, last.z) + wide_mul(m.y, last.w) + wide_mul(
            m.z,
            last.x,
        );
        let rz = wide_mul(m.w, last.z) + wide_mul(m.x, last.y) - wide_mul(m.y, last.x) + wide_mul(
            m.z,
            last.w,
        );
        Vec3 {
            x: rdiv_i64(rx, (SCALE as i128) * (SCALE as i128), 128_000_000),
            y: rdiv_i64(ry, (SCALE as i128) * (SCALE as i128), 128_000_000),
            z: rdiv_i64(rz, (SCALE as i128) * (SCALE as i128), 128_000_000),
        }
    }
}


/// The quaternion of a rotation by `angle_udeg` about `axis`: cosine of the
/// half angle as the scalar part, the normalized axis scaled by the sine of
/// the half angle as the vector part; the zero axis gives the identity.
pub open spec fn from_axis_angle_spec(axis: Vec3, angle_udeg: i64) -> Quaternion {
    if axis.norm2() == 0 {
        Quaternion { w: SCALE, x: 0, y: 0, z: 0 }
    } else {
        let na = axis.normalize_spec();
        let half = rdiv(angle_udeg as int, 2);
        let s = spec_sin_udeg(half);
        let c = spec_cos_udeg(half);
        Quaternion {
            w: c as i64,
            x: rdiv(na.x * s, SCALE as int) as i64,
            y: rdiv(na.y * s, SCALE as int) as i64,
            z: rdiv(na.z * s, SCALE as int) as i64,
        }
    }
}

/// The quaternion of intrinsic roll, pitch and yaw, each in microdegrees:
/// the standard composition formula over the half-angle sines and cosines.
pub open spec fn from_euler_spec(roll: i64, pitch: i64, yaw: i64) -> Quaternion {
    let cr = spec_cos_udeg(rdiv(roll as int, 2));
    let sr = spec_sin_udeg(rdiv(roll as int, 2));
    let cp = spec_cos_udeg(rdiv(pitch as int, 2));
    let sp = spec_sin_udeg(rdiv(pitch as int, 2));
    let cy = spec_cos_udeg(rdiv(yaw as int, 2));
    let sy = spec_sin_udeg(rdiv(yaw as int, 2));
    Quaternion {
        w: rdiv(cr * cp * cy + sr * sp * sy, SCALE * SCALE) as i64,
        x: rdiv(sr * cp * cy - cr * sp * sy, SCALE * SCALE) as i64,
        y: rdiv(cr * sp * cy + sr * cp * sy, SCALE * SCALE) as i64,
        z: rdiv(cr * cp * sy - sr * sp * cy, SCALE * SCALE) as i64,
    }
}

/// The yaw, pitch and roll of an orientation, each in `[0, FULL_TURN)`
/// microdegrees: the standard arctangent and arcsine recovery formulas over
/// the modelled inverse trigonometry.
pub open spec fn to_euler_spec(q: Quaternion) -> (int, int, int) {
    let yaw = atan2_spec(
        rdiv(2 * (q.w * q.z + q.x * q.y), SCALE as int),
        SCALE - rdiv(2 * (q.y * q.y + q.z * q.z), SCALE as int),
    );
    let sp = clamp_spec(
        rdiv(2 * (q.w * q.y - q.z * q.x), SCALE as int),
        -SCALE as int,
        SCALE as int,
    );
    let pitch = (QUARTER_TURN - acos_spec(sp)) % (FULL_TURN as int);
    let roll = atan2_spec(
        rdiv(2 * (q.w * q.x + q.y * q.z), SCALE as int),
        SCALE - rdiv(2 * (q.x * q.x + q.y * q.y), SCALE as int),
    );
    (yaw, pitch, roll)
}

/// The exact product of three scalar factors, widened.
fn tri_mul(a: i64, b: i64, c: i64) -> (r: i128)
    requires
        abs(a as int) <= 2_000_000,
        abs(b as int) <= 2_000_000,
        abs(c as int) <= 2_000_000,
    ensures
        r == a * b * c,
{
    proof {
        lemma_mul_abs_bound(a as int, b as int, 2_000_000, 2_000_000);
        lemma_mul_abs_bound(a as int * b as int, c as int, 4_000_000_000_000, 2_000_000);
    }
    let ab = wide_mul(a, b);
    ab * (c as i128)
}

impl Quaternion {
    /// The rotation by `angle_udeg` about `axis`, exactly as
    /// `from_axis_angle_spec` says; a degenerate axis gives the identity.
    pub fn from_axis_angle(axis: Vec3, angle_udeg: i64) -> (r: Quaternion)
        requires
            axis.bounded(2_000_000_000),
            abs(angle_udeg as int) <= 4 * FULL_TURN,
        ensures
            r == from_axis_angle_spec(axis, angle_udeg),
            r.bounded(SCALE as int),
    {
        let n2 = axis.norm2_exec();
        if n2 == 0 {
            return Quaternion { w: SCALE, x: 0, y: 0, z: 0 };
        }
        let na = axis.normalize();
        let half = rdiv_i64(angle_udeg as i128, 2, 2 * FULL_TURN);
        let sc = sin_cos_udeg(half);
        proof {
            lemma_mul_abs_bound(na.x as int, sc.0 as int, SCALE as int, SCALE as int);
            lemma_mul_abs_bound(na.y as int, sc.0 as int, SCALE as int, SCALE as int);
            lemma_mul_abs_bound(na.z as int, sc.0 as int, SCALE as int, SCALE as int);
        }
        Quaternion {
            w: sc.1,
            x: rdiv_i64(wide_mul(na.x, sc.0), SCALE as i128, SCALE),
            y: rdiv_i64(wide_mul(na.y, sc.0), SCALE as i128, SCALE),
            z: rdiv_i64(wide_mul(na.z, sc.0), SCALE as i128, SCALE),
        }
    }

    /// The orientation of intrinsic roll, pitch and yaw angles, each in
    /// microdegrees, exactly as `from_euler_spec` says.
    pub fn from_euler_angles(roll: i64, pitch: i64, yaw: i64) -> (r: Quaternion)
        requires
            abs(roll as int) <= 4 * FULL_TURN,
            abs(pitch as int) <= 4 * FULL_TURN,
            abs(yaw as int) <= 4 * FULL_TURN,
        ensures
            r == from_euler_spec(roll, pitch, yaw),
            r.bounded(2_000_000),
    {
        let scr = sin_cos_udeg(rdiv_i64(roll as i128, 2, 2 * FULL_TURN));
        let scp = sin_cos_udeg(rdiv_i64(pitch as i128, 2, 2 * FULL_TURN));
        let scy = sin_cos_udeg(rdiv_i64(yaw as i128, 2, 2 * FULL_TURN));
        let (sr, cr) = scr;
        let (sp, cp) = scp;
        let (sy, cy) = scy;
        proof {
            lemma_mul_abs_bound(cr as int, cp as int, SCALE as int, SCALE as int);
            lemma_mul_abs_bound(cr as int * cp as int, cy as int, 1_000_000_000_000, SCALE as int);
            lemma_mul_abs_bound(cr as int * cp as int, sy as int, 1_000_000_000_000, SCALE as int);
            lemma_mul_abs_bound(sr as int, sp as int, SCALE as int, SCALE as int);
            lemma_mul_abs_bound(sr as int * sp as int, sy as int, 1_000_000_000_000, SCALE as int);
            lemma_mul_abs_bound(sr as int * sp as int, cy as int, 1_000_000_000_000, SCALE as int);
            lemma_mul_abs_bound(sr as int, cp as int, SCALE as int, SCALE as int);
            lemma_mul_abs_bound(sr as int * cp as int, cy as int, 1_000_000_000_000, SCALE as int);
            lemma_mul_abs_bound(sr as int * cp as int, sy as int, 1_000_000_000_000, SCALE as int);
            lemma_mul_abs_bound(cr as int, sp as int, SCALE as int, SCALE as int);
            lemma_mul_abs_bound(cr as int * sp as int, sy as int, 1_000_000_000_000, SCALE as int);
            lemma_mul_abs_bound(cr as int * sp as int, cy as int, 1_000_000_000_000, SCALE as int);
        }
        Quaternion {
            w: rdiv_i64(
                tri_mul(cr, cp, cy) + tri_mul(sr, sp, sy),
                (SCALE as i128) * (SCALE as i128),
                2_000_000,
            ),
            x: rdiv_i64(
                tri_mul(sr, cp, cy) - tri_mul(cr, sp, sy),
                (SCALE as i128) * (SCALE as i128),
                2_000_000,
            ),
            y: rdiv_i64(
                tri_mul(cr, sp, cy) + tri_mul(sr, cp, sy),
                (SCALE as i128) * (SCALE as i128),
                2_000_000,
            ),
            z: rdiv_i64(
                tri_mul(cr, cp, sy) - tri_mul(sr, sp, cy),
                (SCALE as i128) * (SCALE as i128),
                2_000_000,
            ),
        }
    }

    /// The orientation of an Euler triple `[yaw, pitch, roll]`, each entry
    /// in microdegrees.
    pub fn from_euler_deg(euler: [i64; 3]) -> (r: Quaternion)
        requires
            abs(euler[0] as int) <= 4 * FULL_TURN,
            abs(euler[1] as int) <= 4 * FULL_TURN,
            abs(euler[2] as int) <= 4 * FULL_TURN,
        ensures
            r == from_euler_spec(euler[2], euler[1], euler[0]),
            r.bounded(2_000_000),
    {
        let yaw = euler[0];
        let pitch = euler[1];
        let roll = euler[2];
        Quaternion::from_euler_angles(roll, pitch, yaw)
    }

    /// Recover yaw, pitch and roll in microdegrees, each normalized into
    /// `[0, FULL_TURN)`, exactly as `to_euler_spec` says.
    pub fn to_euler_deg(self) -> (r: [i64; 3])
        requires
            self.bounded(2_000_000),
        ensures
            r[0] == to_euler_spec(self).0,
            r[1] == to_euler_spec(self).1,
            r[2] == to_euler_spec(self).2,
            0 <= r[0] < FULL_TURN && 0 <= r[1] < FULL_TURN && 0 <= r[2] < FULL_TURN,
    {
        proof {
            lemma_qmul_products_bound(self.raw(), self.raw(), 2_000_000, 2_000_000);
        }
        let yaw = atan2_udeg(
            rdiv_i64(
                2 * (wide_mul(self.w, self.z) + wide_mul(self.x, self.y)),
                SCALE as i128,
                16_000_000,
            ),
            SCALE - rdiv_i64(
                2 * (wide_mul(self.y, self.y) + wide_mul(self.z, self.z)),
                SCALE as i128,
                16_000_000,
            ),
        );
        let sp = crate::fixed::clamp_i64(
            rdiv_i64(
                2 * (wide_mul(self.w, self.y) - wide_mul(self.z, self.x)),
                SCALE as i128,
                16_000_000,
            ),
            -SCALE,
            SCALE,
        );
        let pitch = crate::trig::reduce_turn(asin_udeg(sp));
        let roll = atan2_udeg(
            rdiv_i64(
                2 * (wide_mul(self.w, self.x) + wide_mul(self.y, self.z)),
                SCALE as i128,
                16_000_000,
            ),
            SCALE - rdiv_i64(
                2 * (wide_mul(self.x, self.x) + wide_mul(self.y, self.y)),
                SCALE as i128,
                16_000_000,
            ),
        );
        [yaw, pitch, roll]
    }
}

} // verus!
