use vstd::prelude::*;

verus! {

/// The two coordinate axes of the plane.
#[derive(Debug, Clone, Copy, PartialEq, Eq, Structural)]
pub enum Axis {
    X,
    Y,
}

/// A point of the plane with an identity.
///
/// Two points are equal when id and both coordinates agree. The pair of
/// coordinates alone is the point's key.
#[derive(Debug, Clone, Copy, PartialEq, Eq, Structural)]
pub struct Point {
    pub id: usize,
    pub x: i32,
    pub y: i32,
}

/// `num_traits::Zero::zero` at `i32`: the additive identity, which is 0.
#[verifier::external_body]
fn zero_coordinate() -> (z: i32)
    ensures
        z == 0,
{
    num_traits::Zero::zero()
}

impl Default for Point {
    fn default() -> (p: Point)
        ensures
            p == (Point { id: 0, x: 0, y: 0 }),
    {
        Point { id: 0, x: zero_coordinate(), y: zero_coordinate() }
    }
}

impl Point {
    /// The coordinate pair under which the point is stored and found.
    pub open spec fn key(self) -> (i32, i32) {
        (self.x, self.y)
    }

    /// The coordinate of the point on `axis`.
    pub open spec fn coord(self, axis: Axis) -> i32 {
        match axis {
            Axis::X => self.x,
            Axis::Y => self.y,
        }
    }

    pub fn new(id: usize, x: i32, y: i32) -> (p: Point)
        ensures
            p == (Point { id, x, y }),
    {
        Point { id, x, y }
    }

    /// The point's key.
    pub fn value(&self) -> (k: (i32, i32))
        ensures
            k == self.key(),
    {
        (self.x, self.y)
    }

    /// The point's coordinate on `axis`.
    pub fn along(&self, axis: Axis) -> (c: i32)
        ensures
            c == self.coord(axis),
    {
        match axis {
            Axis::X => self.x,
            Axis::Y => self.y,
        }
    }
}

/// The coordinate of a key on `axis`.
pub open spec fn key_coord(key: (i32, i32), axis: Axis) -> i32 {
    match axis {
        Axis::X => key.0,
        Axis::Y => key.1,
    }
}

} // verus!
