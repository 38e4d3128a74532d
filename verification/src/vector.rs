//! `Vector3`: an immutable-by-value 3-component coordinate tuple with
//! componentwise addition and subtraction.
//!
//! Coordinates are held as plain `i64` scalars, so every comparison and
//! every arithmetic step of the spatial queries is exact.

use vstd::prelude::*;

verus! {

/// A 3D point or displacement. Pure value type: equality is exact
/// componentwise comparison, and operations return new values.
#[derive(Debug, PartialEq, Eq, Structural, Copy, Clone)]
pub struct Vector3 {
    pub x: i64,
    pub y: i64,
    pub z: i64,
}

/// Componentwise sum, truncated to the scalar type. On inputs whose sums
/// fit (the only ones `Vector3::add` accepts) this is the exact sum.
pub open spec fn vec_add(a: Vector3, b: Vector3) -> Vector3 {
    Vector3 { x: (a.x + b.x) as i64, y: (a.y + b.y) as i64, z: (a.z + b.z) as i64 }
}

/// Componentwise difference, truncated to the scalar type.
pub open spec fn vec_sub(a: Vector3, b: Vector3) -> Vector3 {
    Vector3 { x: (a.x - b.x) as i64, y: (a.y - b.y) as i64, z: (a.z - b.z) as i64 }
}

impl Vector3 {
    /// Pure construction; no validation.
    pub fn new(x: i64, y: i64, z: i64) -> (v: Vector3)
        ensures
            v == (Vector3 { x, y, z }),
    {
        Vector3 { x, y, z }
    }

    /// Componentwise addition; produces a new vector, never mutates.
    pub fn add(self, other: Vector3) -> (r: Vector3)
        requires
            i64::MIN <= self.x + other.x <= i64::MAX,
            i64::MIN <= self.y + other.y <= i64::MAX,
            i64::MIN <= self.z + other.z <= i64::MAX,
        ensures
            r == vec_add(self, other),
            r.x == self.x + other.x,
            r.y == self.y + other.y,
            r.z == self.z + other.z,
    {
        Vector3 { x: self.x + other.x, y: self.y + other.y, z: self.z + other.z }
    }

    /// Componentwise subtraction (`other` from `self`); produces a new vector.
    pub fn sub(self, other: Vector3) -> (r: Vector3)
        requires
            i64::MIN <= self.x - other.x <= i64::MAX,
            i64::MIN <= self.y - other.y <= i64::MAX,
            i64::MIN <= self.z - other.z <= i64::MAX,
        ensures
            r == vec_sub(self, other),
            r.x == self.x - other.x,
            r.y == self.y - other.y,
            r.z == self.z - other.z,
    {
        Vector3 { x: self.x - other.x, y: self.y - other.y, z: self.z - other.z }
    }
}

/// Law: vector addition is commutative, on all inputs.
pub proof fn lemma_add_commutative(a: Vector3, b: Vector3)
    ensures
        vec_add(a, b) == vec_add(b, a),
{
}

/// Law: subtracting a vector from itself gives the zero vector, on all inputs.
pub proof fn lemma_sub_self_is_zero(a: Vector3)
    ensures
        vec_sub(a, a) == (Vector3 { x: 0, y: 0, z: 0 }),
{
}

} // verus!
