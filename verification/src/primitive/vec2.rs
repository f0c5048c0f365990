//! Points and displacements on the integer grid.

use vstd::prelude::*;

verus! {

/// A point of the grid, or the displacement between two points.
#[derive(Clone, Copy, Debug, PartialEq, Eq, Structural)]
pub struct Vec2 {
    pub x: i64,
    pub y: i64,
}

impl Vec2 {
    /// The origin.
    pub fn new() -> (v: Self)
        ensures
            v.x == 0,
            v.y == 0,
    {
        Self { x: 0, y: 0 }
    }

    /// The point with the given coordinates.
    pub fn new_at(x: i64, y: i64) -> (v: Self)
        ensures
            v.x == x,
            v.y == y,
    {
        Self { x, y }
    }
}

impl Default for Vec2 {
    /// The origin.
    fn default() -> (v: Self)
        ensures
            v.x == 0,
            v.y == 0,
    {
        Self { x: 0, y: 0 }
    }
}

} // verus!
