//! Three-dimensional integer vector.

use vstd::prelude::*;

use crate::simplifier::lemma_mul_bound;

verus! {

/// A 3D vector with integer components.
#[derive(Clone, Copy, Debug, PartialEq, Eq, Structural)]
pub struct Vector3I {
    pub x: i64,
    pub y: i64,
    pub z: i64,
}

impl Vector3I {
    /// A vector in the z = 0 plane.
    pub fn from_xy(x: i64, y: i64) -> (r: Self)
        ensures
            r == (Vector3I { x, y, z: 0i64 }),
    {
        Vector3I { x, y, z: 0 }
    }

    pub fn zero() -> (r: Self)
        ensures
            r == (Vector3I { x: 0i64, y: 0i64, z: 0i64 }),
    {
        Vector3I { x: 0, y: 0, z: 0 }
    }

    /// Dot product.
    pub fn dot(&self, v: &Self) -> (r: i64)
        requires
            -0x40000000 <= self.x <= 0x40000000,
            -0x40000000 <= self.y <= 0x40000000,
            -0x40000000 <= self.z <= 0x40000000,
            -0x40000000 <= v.x <= 0x40000000,
            -0x40000000 <= v.y <= 0x40000000,
            -0x40000000 <= v.z <= 0x40000000,
        ensures
            r as int == self.x * v.x + self.y * v.y + self.z * v.z,
    {
        proof {
            lemma_mul_bound(self.x as int, v.x as int, 0x40000000, 0x40000000);
            lemma_mul_bound(self.y as int, v.y as int, 0x40000000, 0x40000000);
            lemma_mul_bound(self.z as int, v.z as int, 0x40000000, 0x40000000);
        }
        self.x * v.x + self.y * v.y + self.z * v.z
    }

    /// Cross product.
    pub fn cross(&self, v: &Self) -> (r: Self)
        requires
            -0x40000000 <= self.x <= 0x40000000,
            -0x40000000 <= self.y <= 0x40000000,
            -0x40000000 <= self.z <= 0x40000000,
            -0x40000000 <= v.x <= 0x40000000,
            -0x40000000 <= v.y <= 0x40000000,
            -0x40000000 <= v.z <= 0x40000000,
        ensures
            r.x as int == self.y * v.z - self.z * v.y,
            r.y as int == self.z * v.x - self.x * v.z,
            r.z as int == self.x * v.y - self.y * v.x,
    {
        proof {
            lemma_mul_bound(self.x as int, v.x as int, 0x40000000, 0x40000000);
            lemma_mul_bound(self.y as int, v.y as int, 0x40000000, 0x40000000);
            lemma_mul_bound(self.z as int, v.z as int, 0x40000000, 0x40000000);
            lemma_mul_bound(self.x as int, v.y as int, 0x40000000, 0x40000000);
            lemma_mul_bound(self.y as int, v.x as int, 0x40000000, 0x40000000);
            lemma_mul_bound(self.x as int, v.z as int, 0x40000000, 0x40000000);
            lemma_mul_bound(self.z as int, v.x as int, 0x40000000, 0x40000000);
            lemma_mul_bound(self.y as int, v.z as int, 0x40000000, 0x40000000);
            lemma_mul_bound(self.z as int, v.y as int, 0x40000000, 0x40000000);
        }
        Vector3I {
            x: self.y * v.z - self.z * v.y,
            y: self.z * v.x - self.x * v.z,
            z: self.x * v.y - self.y * v.x,
        }
    }
}

impl core::ops::Add<Vector3I> for Vector3I {
    type Output = Vector3I;

    /// Componentwise sum.
    fn add(self, rhs: Vector3I) -> (r: Vector3I) {
        Vector3I { x: self.x + rhs.x, y: self.y + rhs.y, z: self.z + rhs.z }
    }
}

impl vstd::std_specs::ops::AddSpecImpl<Vector3I> for Vector3I {
    open spec fn obeys_add_spec() -> bool {
        true
    }

    open spec fn add_req(self, rhs: Vector3I) -> bool {
        &&& i64::MIN <= self.x + rhs.x <= i64::MAX
        &&& i64::MIN <= self.y + rhs.y <= i64::MAX
        &&& i64::MIN <= self.z + rhs.z <= i64::MAX
    }

    open spec fn add_spec(self, rhs: Vector3I) -> Vector3I {
        Vector3I {
            x: (self.x + rhs.x) as i64,
            y: (self.y + rhs.y) as i64,
            z: (self.z + rhs.z) as i64,
        }
    }
}

impl core::ops::Sub<Vector3I> for Vector3I {
    type Output = Vector3I;

    /// Componentwise difference.
    fn sub(self, rhs: Vector3I) -> (r: Vector3I) {
        Vector3I { x: self.x - rhs.x, y: self.y - rhs.y, z: self.z - rhs.z }
    }
}

impl vstd::std_specs::ops::SubSpecImpl<Vector3I> for Vector3I {
    open spec fn obeys_sub_spec() -> bool {
        true
    }

    open spec fn sub_req(self, rhs: Vector3I) -> bool {
        &&& i64::MIN <= self.x - rhs.x <= i64::MAX
        &&& i64::MIN <= self.y - rhs.y <= i64::MAX
        &&& i64::MIN <= self.z - rhs.z <= i64::MAX
    }

    open spec fn sub_spec(self, rhs: Vector3I) -> Vector3I {
        Vector3I {
            x: (self.x - rhs.x) as i64,
            y: (self.y - rhs.y) as i64,
            z: (self.z - rhs.z) as i64,
        }
    }
}

} // verus!
