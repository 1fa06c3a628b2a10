//! Fixed-point 3-vectors on and around the unit sphere.

use crate::fixed::{
    isqrt, lemma_mul_abs_bound, lemma_sqrt_floor, rdiv, rdiv_i64, sqrt_floor, wide_mul, SCALE,
};
use vstd::math::abs;
use vstd::prelude::*;

verus! {

/// A 3-vector in fixed-point coordinates: the real vector is this one
/// divided by `SCALE`, so a unit vector has coordinates in `[-SCALE, SCALE]`.
#[derive(Clone, Copy, PartialEq, Eq, Structural, Debug)]
pub struct Vec3 {
    pub x: i64,
    pub y: i64,
    pub z: i64,
}

/// How far the squared norm of a vector accepted as "unit" may stray from
/// `SCALE * SCALE`, in fixed-point units: covers the rounding of
/// normalization, projection and rotation.
pub const UNIT_SLACK: i64 = 64_000_000;

impl Vec3 {
    /// Every coordinate has magnitude at most `b`.
    pub open spec fn bounded(self, b: int) -> bool {
        &&& abs(self.x as int) <= b
        &&& abs(self.y as int) <= b
        &&& abs(self.z as int) <= b
    }

    /// The squared norm, exactly, at scale `SCALE * SCALE`.
    pub open spec fn norm2(self) -> int {
        self.x * self.x + self.y * self.y + self.z * self.z
    }

    /// A unit vector up to the fixed-point slack.
    pub open spec fn is_unit(self) -> bool {
        &&& self.bounded(SCALE as int + 4)
        &&& abs(self.norm2() - SCALE * SCALE) <= UNIT_SLACK
    }

    pub open spec fn dot_spec(self, o: Vec3) -> int {
        self.x * o.x + self.y * o.y + self.z * o.z
    }

    /// The cross product before rescaling, at scale `SCALE * SCALE`.
    pub open spec fn cross_x(self, o: Vec3) -> int {
        self.y * o.z - self.z * o.y
    }

    pub open spec fn cross_y(self, o: Vec3) -> int {
        self.z * o.x - self.x * o.z
    }

    pub open spec fn cross_z(self, o: Vec3) -> int {
        self.x * o.y - self.y * o.x
    }

    /// The cross product rounded back to scale `SCALE`.
    pub open spec fn cross_spec(self, o: Vec3) -> Vec3 {
        Vec3 {
            x: rdiv(self.cross_x(o), SCALE as int) as i64,
            y: rdiv(self.cross_y(o), SCALE as int) as i64,
            z: rdiv(self.cross_z(o), SCALE as int) as i64,
        }
    }

    /// Normalization: each coordinate is divided by the integer magnitude;
    /// the zero vector passes through unchanged.
    pub open spec fn normalize_spec(self) -> Vec3 {
        let m = sqrt_floor(self.norm2() as nat) as int;
        if m == 0 {
            Vec3 { x: 0, y: 0, z: 0 }
        } else {
            Vec3 {
                x: rdiv(self.x * SCALE, m) as i64,
                y: rdiv(self.y * SCALE, m) as i64,
                z: rdiv(self.z * SCALE, m) as i64,
            }
        }
    }

    pub fn new(x: i64, y: i64, z: i64) -> (r: Vec3)
        ensures
            r == (Vec3 { x, y, z }),
    {
        Vec3 { x, y, z }
    }

    /// The dot product, exact at scale `SCALE * SCALE`.
    pub fn dot(self, o: Vec3) -> (r: i64)
        requires
            self.bounded(1_500_000_000),
            o.bounded(1_500_000_000),
        ensures
            r == self.dot_spec(o),
    {
        proof {
            lemma_mul_abs_bound(self.x as int, o.x as int, 1_500_000_000, 1_500_000_000);
            lemma_mul_abs_bound(self.y as int, o.y as int, 1_500_000_000, 1_500_000_000);
            lemma_mul_abs_bound(self.z as int, o.z as int, 1_500_000_000, 1_500_000_000);
        }
        let r = wide_mul(self.x, o.x) + wide_mul(self.y, o.y) + wide_mul(self.z, o.z);
        r as i64
    }

    /// The negated vector: the antipode on the sphere.
    pub fn neg(self) -> (r: Vec3)
        requires
            self.bounded(2_000_000_000),
        ensures
            r.x == -self.x && r.y == -self.y && r.z == -self.z,
    {
        Vec3 { x: -self.x, y: -self.y, z: -self.z }
    }

    /// Componentwise sum.
    pub fn plus(self, o: Vec3) -> (r: Vec3)
        requires
            self.bounded(2_000_000_000),
            o.bounded(2_000_000_000),
        ensures
            r.x == self.x + o.x && r.y == self.y + o.y && r.z == self.z + o.z,
    {
        Vec3 { x: self.x + o.x, y: self.y + o.y, z: self.z + o.z }
    }

    /// Componentwise difference.
    pub fn minus(self, o: Vec3) -> (r: Vec3)
        requires
            self.bounded(2_000_000_000),
            o.bounded(2_000_000_000),
        ensures
            r.x == self.x - o.x && r.y == self.y - o.y && r.z == self.z - o.z,
    {
        Vec3 { x: self.x - o.x, y: self.y - o.y, z: self.z - o.z }
    }

    /// Scale by a fixed-point factor `s / SCALE`.
    pub fn scale_by(self, s: i64) -> (r: Vec3)
        requires
            self.bounded(2_000_000_000),
            abs(s as int) <= 2_000_000_000,
        ensures
            r.x == rdiv(self.x * s, SCALE as int),
            r.y == rdiv(self.y * s, SCALE as int),
            r.z == rdiv(self.z * s, SCALE as int),
            r.bounded(4_000_000_000_000),
    {
        proof {
            lemma_mul_abs_bound(self.x as int, s as int, 2_000_000_000, 2_000_000_000);
            lemma_mul_abs_bound(self.y as int, s as int, 2_000_000_000, 2_000_000_000);
            lemma_mul_abs_bound(self.z as int, s as int, 2_000_000_000, 2_000_000_000);
        }
        Vec3 {
            x: rdiv_i64(wide_mul(self.x, s), SCALE as i128, 4_000_000_000_000),
            y: rdiv_i64(wide_mul(self.y, s), SCALE as i128, 4_000_000_000_000),
            z: rdiv_i64(wide_mul(self.z, s), SCALE as i128, 4_000_000_000_000),
        }
    }

    /// The cross product, rounded back to scale `SCALE`.
    pub fn cross(self, o: Vec3) -> (r: Vec3)
        requires
            self.bounded(2_000_000_000),
            o.bounded(2_000_000_000),
        ensures
            r == self.cross_spec(o),
            r.bounded(8_000_000_000_000),
    {
        proof {
            lemma_mul_abs_bound(self.y as int, o.z as int, 2_000_000_000, 2_000_000_000);
            lemma_mul_abs_bound(self.z as int, o.y as int, 2_000_000_000, 2_000_000_000);
            lemma_mul_abs_bound(self.z as int, o.x as int, 2_000_000_000, 2_000_000_000);
            lemma_mul_abs_bound(self.x as int, o.z as int, 2_000_000_000, 2_000_000_000);
            lemma_mul_abs_bound(self.x as int, o.y as int, 2_000_000_000, 2_000_000_000);
            lemma_mul_abs_bound(self.y as int, o.x as int, 2_000_000_000, 2_000_000_000);
        }
        Vec3 {
            x: rdiv_i64(
                wide_mul(self.y, o.z) - wide_mul(self.z, o.y),
                SCALE as i128,
                8_000_000_000_000,
            ),
            y: rdiv_i64(
                wide_mul(self.z, o.x) - wide_mul(self.x, o.z),
                SCALE as i128,
                8_000_000_000_000,
            ),
            z: rdiv_i64(
                wide_mul(self.x, o.y) - wide_mul(self.y, o.x),
                SCALE as i128,
                8_000_000_000_000,
            ),
        }
    }

    /// The squared norm as a machine integer.
    pub fn norm2_exec(self) -> (r: u64)
        requires
            self.bounded(2_000_000_000),
        ensures
            r == self.norm2(),
    {
        proof {
            lemma_mul_abs_bound(self.x as int, self.x as int, 2_000_000_000, 2_000_000_000);
            lemma_mul_abs_bound(self.y as int, self.y as int, 2_000_000_000, 2_000_000_000);
            lemma_mul_abs_bound(self.z as int, self.z as int, 2_000_000_000, 2_000_000_000);
            assert(self.x * self.x >= 0 && self.y * self.y >= 0 && self.z * self.z >= 0)
                by (nonlinear_arith);
        }
        let r = wide_mul(self.x, self.x) + wide_mul(self.y, self.y) + wide_mul(self.z, self.z);
        r as u64
    }

    /// The integer magnitude: the floor of the square root of `norm2`.
    pub fn magnitude(self) -> (r: u64)
        requires
            self.bounded(2_000_000_000),
        ensures
            r == sqrt_floor(self.norm2() as nat),
    {
        isqrt(self.norm2_exec())
    }

    /// Renormalize onto the unit sphere; the zero vector passes through.
    pub fn normalize(self) -> (r: Vec3)
        requires
            self.bounded(2_000_000_000),
        ensures
            r == self.normalize_spec(),
            r.bounded(SCALE as int),
    {
        let m = self.magnitude();
        if m == 0 {
            Vec3 { x: 0, y: 0, z: 0 }
        } else {
            proof {
                lemma_sqrt_floor(self.norm2() as nat);
                let mm = sqrt_floor(self.norm2() as nat) as int;
                assert(self.x * self.x <= self.norm2() && self.y * self.y <= self.norm2()
                    && self.z * self.z <= self.norm2()) by (nonlinear_arith);
                assert(abs(self.x as int) <= mm && abs(self.y as int) <= mm && abs(
                    self.z as int,
                ) <= mm) by (nonlinear_arith)
                    requires
                        self.x * self.x < (mm + 1) * (mm + 1),
                        self.y * self.y < (mm + 1) * (mm + 1),
                        self.z * self.z < (mm + 1) * (mm + 1),
                        mm >= 0,
                ;
                lemma_mul_abs_bound(self.x as int, SCALE as int, mm, SCALE as int);
                lemma_mul_abs_bound(self.y as int, SCALE as int, mm, SCALE as int);
                lemma_mul_abs_bound(self.z as int, SCALE as int, mm, SCALE as int);
            }
            Vec3 {
                x: rdiv_i64(wide_mul(self.x, SCALE), m as i128, SCALE),
                y: rdiv_i64(wide_mul(self.y, SCALE), m as i128, SCALE),
                z: rdiv_i64(wide_mul(self.z, SCALE), m as i128, SCALE),
            }
        }
    }
}

} // verus!
