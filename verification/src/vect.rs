//! Integer 3-vectors used as exact directions.
//!
//! A direction on the sphere is represented by an integer vector pointing the
//! same way; the cube-sphere mapping only ever compares component magnitudes
//! and forms perspective quotients, both of which are exact on integers.

use vstd::prelude::*;

verus! {

/// Largest component magnitude accepted by the geometric routines, chosen so
/// that every intermediate product they form fits comfortably in `i128`.
pub const COMPONENT_BOUND: i64 = 0x4000_0000_0000;

/// An exact direction (or position) with integer components.
#[derive(Debug, Clone, Copy, PartialEq, Eq, Hash, Structural)]
pub struct Vec3 {
    pub x: i64,
    pub y: i64,
    pub z: i64,
}

impl Vec3 {
    /// All components within `COMPONENT_BOUND` in magnitude.
    pub open spec fn bounded(self) -> bool {
        &&& -COMPONENT_BOUND <= self.x <= COMPONENT_BOUND
        &&& -COMPONENT_BOUND <= self.y <= COMPONENT_BOUND
        &&& -COMPONENT_BOUND <= self.z <= COMPONENT_BOUND
    }

    pub open spec fn is_zero(self) -> bool {
        self.x == 0 && self.y == 0 && self.z == 0
    }

    pub fn new(x: i64, y: i64, z: i64) -> (r: Vec3)
        ensures
            r == (Vec3 { x, y, z }),
    {
        Vec3 { x, y, z }
    }

    /// Mathematical dot product of two vectors, over unbounded integers.
    pub open spec fn spec_dot(self, other: Vec3) -> int {
        self.x * other.x + self.y * other.y + self.z * other.z
    }

    /// Dot product, exact within `i128`.
    pub fn dot(self, other: Vec3) -> (r: i128)
        requires
            self.bounded(),
            other.bounded(),
        ensures
            r == self.spec_dot(other),
    {
        proof {
            lemma_mul_bound(self.x as int, other.x as int, COMPONENT_BOUND as int);
            lemma_mul_bound(self.y as int, other.y as int, COMPONENT_BOUND as int);
            lemma_mul_bound(self.z as int, other.z as int, COMPONENT_BOUND as int);
        }
        self.x as i128 * other.x as i128 + self.y as i128 * other.y as i128
            + self.z as i128 * other.z as i128
    }

    /// Mathematical squared length.
    pub open spec fn spec_norm2(self) -> int {
        self.spec_dot(self)
    }

    /// Squared length, exact within `i128`.
    pub fn norm2(self) -> (r: i128)
        requires
            self.bounded(),
        ensures
            r == self.spec_norm2(),
            r >= 0,
    {
        let r = self.dot(self);
        proof {
            lemma_square_nonneg(self.x as int);
            lemma_square_nonneg(self.y as int);
            lemma_square_nonneg(self.z as int);
        }
        r
    }
}

/// A product of factors bounded by `m` in magnitude is bounded by `m * m`.
pub proof fn lemma_mul_bound(a: int, b: int, m: int)
    requires
        -m <= a <= m,
        -m <= b <= m,
    ensures
        -(m * m) <= a * b <= m * m,
{
    assert(-(m * m) <= a * b <= m * m) by (nonlinear_arith)
        requires
            -m <= a <= m,
            -m <= b <= m,
    ;
}

/// Squares are never negative.
pub proof fn lemma_square_nonneg(a: int)
    ensures
        a * a >= 0,
{
    if a < 0 {
        assert(a * a == (-a) * (-a)) by (nonlinear_arith);
        assert((-a) * (-a) >= 0) by (nonlinear_arith)
            requires
                -a >= 0,
        ;
    } else {
        assert(a * a >= 0) by (nonlinear_arith)
            requires
                a >= 0,
        ;
    }
}

} // verus!
