use vstd::prelude::*;

verus! {

/// A point or a displacement in the plane, in fixed-point length units
/// (or, for a velocity, length units per second).
#[derive(Copy, Clone, Debug, PartialEq, Eq, Structural)]
pub struct Vector2 {
    pub x: i64,
    pub y: i64,
}

impl Vector2 {
    /// The vector with the given components.
    pub fn new(x: i64, y: i64) -> (v: Self)
        ensures
            v == (Vector2 { x, y }),
    {
        Vector2 { x, y }
    }

    /// The square of the distance between two points.
    pub open spec fn distance_sqr(self, other: Vector2) -> int {
        (other.x - self.x) * (other.x - self.x) + (other.y - self.y) * (other.y - self.y)
    }

    /// The square of the vector's length.
    pub open spec fn length_sqr(self) -> int {
        self.x * self.x + self.y * self.y
    }
}

} // verus!
