//! Small shared value types.

use vstd::prelude::*;

verus! {

/// An integer 2D vector, for grid positions.
#[derive(Clone, Copy, Debug, PartialEq, Eq, Structural)]
pub struct Vec2I {
    pub x: isize,
    pub y: isize,
}

impl Vec2I {
    pub fn new(x: isize, y: isize) -> (r: Vec2I)
        ensures
            r.x == x,
            r.y == y,
    {
        Vec2I { x, y }
    }
}

} // verus!
