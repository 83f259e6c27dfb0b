//! Two-dimensional integer vector.

use vstd::prelude::*;

verus! {

/// A 2D vector with integer components, used for pixel coordinates.
#[derive(Clone, Copy, Debug, PartialEq, Eq, Structural)]
pub struct Vector2I {
    pub x: i64,
    pub y: i64,
}

impl Vector2I {
    pub fn from_xy(x: i64, y: i64) -> (r: Self)
        ensures
            r == (Vector2I { x, y }),
    {
        Vector2I { x, y }
    }

    pub fn zero() -> (r: Self)
        ensures
            r == (Vector2I { x: 0i64, y: 0i64 }),
    {
        Vector2I { x: 0, y: 0 }
    }
}

impl core::ops::Add<Vector2I> for Vector2I {
    type Output = Vector2I;

    /// Componentwise sum.
    fn add(self, rhs: Vector2I) -> (r: Vector2I) {
        Vector2I { x: self.x + rhs.x, y: self.y + rhs.y }
    }
}

impl vstd::std_specs::ops::AddSpecImpl<Vector2I> for Vector2I {
    open spec fn obeys_add_spec() -> bool {
        true
    }

    open spec fn add_req(self, rhs: Vector2I) -> bool {
        &&& i64::MIN <= self.x + rhs.x <= i64::MAX
        &&& i64::MIN <= self.y + rhs.y <= i64::MAX
    }

    open spec fn add_spec(self, rhs: Vector2I) -> Vector2I {
        Vector2I { x: (self.x + rhs.x) as i64, y: (self.y + rhs.y) as i64 }
    }
}

impl core::ops::Sub<Vector2I> for Vector2I {
    type Output = Vector2I;

    /// Componentwise difference.
    fn sub(self, rhs: Vector2I) -> (r: Vector2I) {
        Vector2I { x: self.x - rhs.x, y: self.y - rhs.y }
    }
}

impl vstd::std_specs::ops::SubSpecImpl<Vector2I> for Vector2I {
    open spec fn obeys_sub_spec() -> bool {
        true
    }

    open spec fn sub_req(self, rhs: Vector2I) -> bool {
        &&& i64::MIN <= self.x - rhs.x <= i64::MAX
        &&& i64::MIN <= self.y - rhs.y <= i64::MAX
    }

    open spec fn sub_spec(self, rhs: Vector2I) -> Vector2I {
        Vector2I { x: (self.x - rhs.x) as i64, y: (self.y - rhs.y) as i64 }
    }
}

impl core::ops::Mul<i64> for Vector2I {
    type Output = Vector2I;

    /// Componentwise scaling.
    fn mul(self, rhs: i64) -> (r: Vector2I) {
        Vector2I { x: self.x * rhs, y: self.y * rhs }
    }
}

impl vstd::std_specs::ops::MulSpecImpl<i64> for Vector2I {
    open spec fn obeys_mul_spec() -> bool {
        true
    }

    open spec fn mul_req(self, rhs: i64) -> bool {
        &&& i64::MIN <= self.x * rhs <= i64::MAX
        &&& i64::MIN <= self.y * rhs <= i64::MAX
    }

    open spec fn mul_spec(self, rhs: i64) -> Vector2I {
        Vector2I { x: (self.x * rhs) as i64, y: (self.y * rhs) as i64 }
    }
}

} // verus!
