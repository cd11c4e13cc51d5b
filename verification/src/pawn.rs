//! A pawn: a position on the grid.

use vstd::prelude::*;
use crate::point::{create, dir_dx, dir_dy, Direction, Point};

verus! {

/// A player's pawn, identified by where it stands.
#[derive(Clone, Copy, Debug, PartialEq, Eq, Structural)]
pub struct Pawn {
    pub location: Point,
}

impl Pawn {
    /// A pawn standing at the origin.
    pub fn create() -> (p: Pawn)
        ensures
            p.location == (Point { x: 0, y: 0 }),
    {
        Pawn { location: Point::origin() }
    }

    /// The pawn moved to column `x`, row `y`.
    pub fn set_location(self, x: i32, y: i32) -> (r: Pawn)
        ensures
            r.location == (Point { x, y }),
    {
        Pawn { location: create(x, y) }
    }

    /// The pawn moved one step in `direction`.
    pub fn move_to(self, direction: Direction) -> (r: Pawn)
        requires
            i32::MIN <= self.location.x + dir_dx(direction) <= i32::MAX,
            i32::MIN <= self.location.y + dir_dy(direction) <= i32::MAX,
        ensures
            r.location.x == self.location.x + dir_dx(direction),
            r.location.y == self.location.y + dir_dy(direction),
    {
        Pawn { location: self.location.shift_direction(direction) }
    }
}

} // verus!
