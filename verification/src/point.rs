//! Points on the sphere in the dual frame (object-space and view-rotated
//! coordinates), polar restatements, spherical trigonometry, and the
//! snap-to-great-circle projection.

use crate::circle::{arc_dot, GreatCircle};
use crate::fixed::{
    clamp_i64, lemma_mul_abs_bound, lemma_rdiv_bound, rdiv, rdiv_i64, sqrt_floor, wide_mul,
    HALF_TURN, QUARTER_TURN, SCALE,
};
use crate::quaternion::{act_raw, pass_raw, qpure, Quaternion};
use crate::trig::{
    acos_spec, acos_udeg, asin_udeg, atan2_spec, atan2_udeg, is_acos_of, spec_cos_udeg,
    spec_sin_udeg,
};
use crate::vec3::Vec3;
use vstd::math::abs;
use vstd::prelude::*;

verus! {

/// The polar pair `(theta, phi)` restates `v` exactly: `theta` is the
/// modelled inverse sine of the `y` coordinate (latitude, from the
/// non-standard `y` polar axis) and `phi` the modelled planar angle of
/// `(x, z)` (longitude in `[0, FULL_TURN)`).
pub open spec fn polar_ok(theta: int, phi: int, v: Vec3) -> bool {
    &&& theta == QUARTER_TURN - acos_spec(clamp_spec_unit(v.y as int))
    &&& phi == atan2_spec(v.x as int, v.z as int)
}

/// Clamp onto the unit interval in fixed point.
pub open spec fn clamp_spec_unit(x: int) -> int {
    if x < -SCALE {
        -SCALE as int
    } else if x > SCALE {
        SCALE as int
    } else {
        x
    }
}

/// The polar restatement of a unit vector: latitude from `asin(y)`,
/// longitude from `atan2(x, z)`, both in microdegrees.
pub fn vec3_to_polar(v: Vec3) -> (r: (i64, i64))
    requires
        v.bounded(1_000_000_000),
    ensures
        polar_ok(r.0 as int, r.1 as int, v),
{
    let theta = asin_udeg(clamp_i64(v.y, -SCALE, SCALE));
    let phi = atan2_udeg(v.x, v.z);
    (theta, phi)
}

/// A point on the sphere: its object-space position, its view-rotated
/// position, the polar restatements of both, a name and its edit flags.
pub struct Point {
    pub id: usize,
    pub absolute: Vec3,
    pub rotated: Vec3,
    pub abs_polar: (i64, i64),
    pub rot_polar: (i64, i64),
    pub name: String,
    pub movable: bool,
    pub removable: bool,
    pub hidden: bool,
}

/// The rounded active rotation of `p` by `q`, as a spec value.
pub open spec fn rotate_active_spec(q: Quaternion, p: Vec3) -> Vec3 {
    Vec3 {
        x: rdiv(act_raw(q.raw(), qpure(p)).x, SCALE * SCALE) as i64,
        y: rdiv(act_raw(q.raw(), qpure(p)).y, SCALE * SCALE) as i64,
        z: rdiv(act_raw(q.raw(), qpure(p)).z, SCALE * SCALE) as i64,
    }
}

/// The rounded passive rotation of `p` by `q`, as a spec value.
pub open spec fn rotate_passive_spec(q: Quaternion, p: Vec3) -> Vec3 {
    Vec3 {
        x: rdiv(pass_raw(q.raw(), qpure(p)).x, SCALE * SCALE) as i64,
        y: rdiv(pass_raw(q.raw(), qpure(p)).y, SCALE * SCALE) as i64,
        z: rdiv(pass_raw(q.raw(), qpure(p)).z, SCALE * SCALE) as i64,
    }
}

impl Point {
    /// Both frames agree under the orientation `q` and the polar pairs
    /// restate their vectors.
    pub open spec fn wf(self, q: Quaternion) -> bool {
        &&& self.rotated == rotate_active_spec(q, self.absolute)
        &&& polar_ok(self.abs_polar.0 as int, self.abs_polar.1 as int, self.absolute)
        &&& polar_ok(self.rot_polar.0 as int, self.rot_polar.1 as int, self.rotated)
        &&& self.absolute.bounded(2_000_000)
        &&& self.rotated.bounded(128_000_000)
    }

    /// A new point with both frames equal: for use under the identity
    /// orientation, as when a document is loaded.
    pub fn from_vec3(id: usize, v: Vec3) -> (r: Point)
        requires
            v.bounded(2_000_000),
        ensures
            r.id == id,
            r.absolute == v,
            r.rotated == v,
            polar_ok(r.abs_polar.0 as int, r.abs_polar.1 as int, v),
            r.rot_polar == r.abs_polar,
            r.name@ == Seq::<char>::empty(),
            r.movable && r.removable && !r.hidden,
    {
        let polar = vec3_to_polar(v);
        Point {
            id,
            absolute: v,
            rotated: v,
            abs_polar: polar,
            rot_polar: polar,
            name: String::new(),
            movable: true,
            removable: true,
            hidden: false,
        }
    }

    /// A new point given in object space: the view coordinates are derived
    /// by the active rotation.
    #[verifier::rlimit(30)]
    pub fn from_vec3_absolute(id: usize, v: Vec3, q: Quaternion) -> (r: Point)
        requires
            v.bounded(2_000_000),
            q.bounded(2_000_000),
        ensures
            r.id == id,
            r.absolute == v,
            r.rotated == rotate_active_spec(q, v),
            r.wf(q),
            r.name@ == Seq::<char>::empty(),
            r.movable && r.removable && !r.hidden,
    {
        let rotated = q.rotate_point_active(v);
        let abs_polar = vec3_to_polar(v);
        let rot_polar = vec3_to_polar(rotated);
        Point {
            id,
            absolute: v,
            rotated,
            abs_polar,
            rot_polar,
            name: String::new(),
            movable: true,
            removable: true,
            hidden: false,
        }
    }

    /// A new point given in view space (a click in the rotated view): the
    /// object-space position is recovered by the passive rotation.
    pub fn from_vec3_rotated(id: usize, v: Vec3, q: Quaternion) -> (r: Point)
        requires
            v.bounded(2_000_000),
            q.bounded(2_000_000),
        ensures
            r.id == id,
            r.rotated == v,
            r.absolute == rotate_passive_spec(q, v),
            polar_ok(r.abs_polar.0 as int, r.abs_polar.1 as int, r.absolute),
            polar_ok(r.rot_polar.0 as int, r.rot_polar.1 as int, v),
            r.name@ == Seq::<char>::empty(),
            r.movable && r.removable && !r.hidden,
    {
        let absolute = q.rotate_point_passive(v);
        let abs_polar = vec3_to_polar(absolute);
        let rot_polar = vec3_to_polar(v);
        Point {
            id,
            absolute,
            rotated: v,
            abs_polar,
            rot_polar,
            name: String::new(),
            movable: true,
            removable: true,
            hidden: false,
        }
    }

    /// Move the point to a new view-space position; a point that is not
    /// movable stays in place.
    pub fn move_to(&mut self, v: Vec3, q: Quaternion)
        requires
            v.bounded(2_000_000),
            q.bounded(2_000_000),
        ensures
            !old(self).movable ==> *final(self) == *old(self),
            old(self).movable ==> final(self).rotated == v && final(self).absolute
                == rotate_passive_spec(q, v) && polar_ok(
                final(self).abs_polar.0 as int,
                final(self).abs_polar.1 as int,
                final(self).absolute,
            ) && polar_ok(final(self).rot_polar.0 as int, final(self).rot_polar.1 as int, v)
                && final(self).id == old(self).id && final(self).name == old(self).name && final(self).movable == old(self).movable && final(self).removable == old(self).removable && final(self).hidden == old(self).hidden,
    {
        if !self.movable {
            return ;
        }
        self.absolute = q.rotate_point_passive(v);
        self.abs_polar = vec3_to_polar(self.absolute);
        self.rotated = v;
        self.rot_polar = vec3_to_polar(v);
    }

    /// Recompute only the view frame from the unchanged object frame, after
    /// the global orientation changed.
    pub fn rotate(&mut self, q: Quaternion)
        requires
            old(self).absolute.bounded(2_000_000),
            q.bounded(2_000_000),
        ensures
            final(self).rotated == rotate_active_spec(q, old(self).absolute),
            polar_ok(
                final(self).rot_polar.0 as int,
                final(self).rot_polar.1 as int,
                final(self).rotated,
            ),
            final(self).absolute == old(self).absolute,
            final(self).abs_polar == old(self).abs_polar,
            final(self).id == old(self).id && final(self).name == old(self).name && final(self).movable == old(self).movable && final(self).removable == old(self).removable && final(self).hidden == old(self).hidden,
    {
        self.rotated = q.rotate_point_active(self.absolute);
        self.rot_polar = vec3_to_polar(self.rotated);
    }

    /// Rename the point.
    pub fn name(&mut self, name: String)
        ensures
            final(self).name == name,
            final(self).id == old(self).id && final(self).absolute == old(self).absolute && final(self).rotated == old(self).rotated && final(self).abs_polar == old(self).abs_polar && final(self).rot_polar == old(self).rot_polar && final(self).movable == old(self).movable && final(self).removable == old(self).removable && final(self).hidden == old(self).hidden,
    {
        self.name = name;
    }

    /// The antipodal point: both frames negated, fresh flags, empty name.
    pub fn new_inverted(&self, id: usize) -> (r: Point)
        requires
            self.absolute.bounded(2_000_000),
            self.rotated.bounded(128_000_000),
        ensures
            r.id == id,
            r.absolute.x == -self.absolute.x && r.absolute.y == -self.absolute.y && r.absolute.z
                == -self.absolute.z,
            r.rotated.x == -self.rotated.x && r.rotated.y == -self.rotated.y && r.rotated.z
                == -self.rotated.z,
            polar_ok(r.abs_polar.0 as int, r.abs_polar.1 as int, r.absolute),
            polar_ok(r.rot_polar.0 as int, r.rot_polar.1 as int, r.rotated),
            r.name@ == Seq::<char>::empty(),
            r.movable && r.removable && !r.hidden,
    {
        let absolute = self.absolute.neg();
        let rotated = self.rotated.neg();
        let abs_polar = vec3_to_polar(absolute);
        let rot_polar = vec3_to_polar(rotated);
        Point {
            id,
            absolute,
            rotated,
            abs_polar,
            rot_polar,
            name: String::new(),
            movable: true,
            removable: true,
            hidden: false,
        }
    }
}

/// The angular separation of two unit vectors, in microdegrees: the inverse
/// of the modelled cosine of their clamped dot product.
pub fn arc_distance(a: Vec3, b: Vec3) -> (r: i64)
    requires
        a.bounded(2_000_000),
        b.bounded(2_000_000),
    ensures
        r == acos_spec(arc_dot(a, b)),
        is_acos_of(r as int, arc_dot(a, b)),
        0 <= r < HALF_TURN,
{
    proof {
        lemma_mul_abs_bound(a.x as int, b.x as int, 2_000_000, 2_000_000);
        lemma_mul_abs_bound(a.y as int, b.y as int, 2_000_000, 2_000_000);
        lemma_mul_abs_bound(a.z as int, b.z as int, 2_000_000, 2_000_000);
        lemma_rdiv_bound(a.dot_spec(b), SCALE as int, 12_000_000);
    }
    let dot = a.dot(b);
    let pq = clamp_i64(rdiv_i64(dot as i128, SCALE as i128, 12_000_000), -SCALE, SCALE);
    acos_udeg(pq)
}

/// The clamped rescaled dot product is symmetric in its arguments, so the
/// modelled arc distance is too: `arc_distance(a, b) == arc_distance(b, a)`.
pub proof fn lemma_arc_dot_symmetric(a: Vec3, b: Vec3)
    ensures
        arc_dot(a, b) == arc_dot(b, a),
{
    broadcast use vstd::arithmetic::mul::lemma_mul_is_commutative;

    assert(a.dot_spec(b) == b.dot_spec(a));
}

/// The guarded spherical law of cosines: the cosine of the angle opposite
/// side `a`, or `SCALE` (angle zero) when a flanking sine degenerates.
pub open spec fn corner_cos(a: int, b: int, c: int) -> int {
    let sb = spec_sin_udeg(b);
    let sc = spec_sin_udeg(c);
    if sb <= 0 || sc <= 0 {
        SCALE as int
    } else {
        clamp_spec_unit(
            rdiv((spec_cos_udeg(a) * SCALE - spec_cos_udeg(b) * spec_cos_udeg(c)) * SCALE, sb * sc),
        )
    }
}

/// The three corner angles of a spherical triangle from its three side
/// lengths (all in microdegrees), by the spherical law of cosines with a
/// degenerate-sine guard: each returned angle inverts the modelled cosine
/// given by `corner_cos` of its side against the two others.
pub fn calculate_angle(a: i64, b: i64, c: i64) -> (r: [i64; 3])
    requires
        0 <= a <= HALF_TURN,
        0 <= b <= HALF_TURN,
        0 <= c <= HALF_TURN,
    ensures
        r[0] == acos_spec(corner_cos(a as int, b as int, c as int)),
        r[1] == acos_spec(corner_cos(b as int, a as int, c as int)),
        r[2] == acos_spec(corner_cos(c as int, a as int, b as int)),
        is_acos_of(r[0] as int, corner_cos(a as int, b as int, c as int)),
        is_acos_of(r[1] as int, corner_cos(b as int, a as int, c as int)),
        is_acos_of(r[2] as int, corner_cos(c as int, a as int, b as int)),
{
    let angle_a = acos_udeg(corner_cos_exec(a, b, c));
    let angle_b = acos_udeg(corner_cos_exec(b, a, c));
    let angle_c = acos_udeg(corner_cos_exec(c, a, b));
    [angle_a, angle_b, angle_c]
}

/// One guarded corner cosine, exactly as `corner_cos` says.
fn corner_cos_exec(a: i64, b: i64, c: i64) -> (r: i64)
    requires
        a > i64::MIN,
        b > i64::MIN,
        c > i64::MIN,
    ensures
        r == corner_cos(a as int, b as int, c as int),
        -SCALE <= r <= SCALE,
{
    let sca = crate::trig::sin_cos_udeg(a);
    let scb = crate::trig::sin_cos_udeg(b);
    let scc = crate::trig::sin_cos_udeg(c);
    if scb.0 <= 0 || scc.0 <= 0 {
        SCALE
    } else {
        proof {
            lemma_mul_abs_bound(scb.1 as int, scc.1 as int, SCALE as int, SCALE as int);
            lemma_mul_abs_bound(sca.1 as int, SCALE as int, SCALE as int, SCALE as int);
            let num = sca.1 * SCALE - scb.1 * scc.1;
            lemma_mul_abs_bound(num, SCALE as int, 2_000_000_000_000, SCALE as int);
            assert(scb.0 * scc.0 >= 1) by (nonlinear_arith)
                requires
                    scb.0 >= 1,
                    scc.0 >= 1,
            ;
            lemma_rdiv_bound(num * SCALE, scb.0 * scc.0, 2_000_000_000_000_000_000);
        }
        let num = wide_mul(sca.1, SCALE) - wide_mul(scb.1, scc.1);
        let den = wide_mul(scb.0, scc.0);
        let val = rdiv_i64((num * (SCALE as i128)), den, 2_000_000_000_000_000_000);
        clamp_i64(val, -SCALE, SCALE)
    }
}

/// One step of the snap scan: if this pole's plane is strictly nearer than
/// the best so far and the projection is not degenerate, the projection
/// renormalized onto the sphere becomes the new best.
pub open spec fn snap_step(point: Vec3, pole: Vec3, best: (int, Vec3)) -> (int, Vec3) {
    let dot = point.dot_spec(pole);
    let dist = abs(dot) as int;
    if dist < best.0 {
        let proj = Vec3 {
            x: (point.x - rdiv(dot * pole.x, SCALE * SCALE)) as i64,
            y: (point.y - rdiv(dot * pole.y, SCALE * SCALE)) as i64,
            z: (point.z - rdiv(dot * pole.z, SCALE * SCALE)) as i64,
        };
        if proj.norm2() > 0 {
            (dist, proj.normalize_spec())
        } else {
            best
        }
    } else {
        best
    }
}

/// The snap scan over the first `n` great circles, threaded left to right.
pub open spec fn snap_spec(
    point: Vec3,
    gcs: Seq<GreatCircle>,
    pts: Seq<Point>,
    thr: int,
    n: int,
) -> (int, Vec3)
    decreases n,
{
    if n <= 0 {
        (thr, point)
    } else {
        snap_step(
            point,
            pts[gcs[n - 1].pole as int].rotated,
            snap_spec(point, gcs, pts, thr, n - 1),
        )
    }
}

/// Snap a view-space point to the nearest registered great circle within
/// `threshold`: the single closest plane wins; a point with no circle within
/// threshold is returned unchanged. The result is exactly the left-to-right
/// scan `snap_spec` describes.
pub fn snap_to_great_circle(
    point: Vec3,
    great_circles: &Vec<GreatCircle>,
    points: &Vec<Point>,
    threshold: i64,
) -> (r: Vec3)
    requires
        point.bounded(2_000_000),
        threshold >= 0,
        forall|i: int|
            0 <= i < great_circles@.len() ==> (#[trigger] great_circles@[i]).pole
                < points@.len(),
        forall|j: int| 0 <= j < points@.len() ==> (#[trigger] points@[j]).rotated.bounded(2_000_000),
    ensures
        r == snap_spec(
            point,
            great_circles@,
            points@,
            threshold as int,
            great_circles@.len() as int,
        ).1,
{
    let mut best_d: i64 = threshold;
    let mut best_p = point;
    let mut i: usize = 0;
    while i < great_circles.len()
        invariant
            i <= great_circles@.len(),
            point.bounded(2_000_000),
            forall|k: int|
                0 <= k < great_circles@.len() ==> (#[trigger] great_circles@[k]).pole
                    < points@.len(),
            forall|j: int|
                0 <= j < points@.len() ==> (#[trigger] points@[j]).rotated.bounded(2_000_000),
            (best_d as int, best_p) == snap_spec(
                point,
                great_circles@,
                points@,
                threshold as int,
                i as int,
            ),
            0 <= best_d <= threshold,
            best_p.bounded(2_000_000),
        decreases great_circles@.len() - i,
    {
        let pole = points[great_circles[i].pole].rotated;
        proof {
            lemma_mul_abs_bound(point.x as int, pole.x as int, 2_000_000, 2_000_000);
            lemma_mul_abs_bound(point.y as int, pole.y as int, 2_000_000, 2_000_000);
            lemma_mul_abs_bound(point.z as int, pole.z as int, 2_000_000, 2_000_000);
        }
        let dot = point.dot(pole);
        let dist = if dot >= 0 {
            dot
        } else {
            -dot
        };
        if dist < best_d {
            proof {
                lemma_mul_abs_bound(dot as int, pole.x as int, 12_000_000_000_000, 2_000_000);
                lemma_mul_abs_bound(dot as int, pole.y as int, 12_000_000_000_000, 2_000_000);
                lemma_mul_abs_bound(dot as int, pole.z as int, 12_000_000_000_000, 2_000_000);
                assert((SCALE as i128) * (SCALE as i128) == 1_000_000_000_000);
            }
            let proj = Vec3 {
                x: point.x - rdiv_i64(
                    wide_mul(dot, pole.x),
                    (SCALE as i128) * (SCALE as i128),
                    24_000_000,
                ),
                y: point.y - rdiv_i64(
                    wide_mul(dot, pole.y),
                    (SCALE as i128) * (SCALE as i128),
                    24_000_000,
                ),
                z: point.z - rdiv_i64(
                    wide_mul(dot, pole.z),
                    (SCALE as i128) * (SCALE as i128),
                    24_000_000,
                ),
            };
            let m2 = proj.norm2_exec();
            if m2 > 0 {
                best_p = proj.normalize();
                best_d = dist;
            }
        }
        i += 1;
    }
    best_p
}

} // verus!
