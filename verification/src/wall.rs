//! Walls: oriented unit barriers between cells, and when two of them clash.

use vstd::prelude::*;
use crate::point::Point;

verus! {

/// Which way a wall runs.  A horizontal wall blocks movement between two
/// vertically adjacent cell pairs; a vertical wall the mirror image.
#[derive(Clone, Copy, Debug, PartialEq, Eq, Structural)]
pub enum Orientation {
    Vertical,
    Horizontal,
}

/// A placed wall: the coordinate of its lower-left reference cell plus its
/// orientation.  Walls are immutable once placed.
#[derive(Clone, Copy, Debug, PartialEq, Eq, Structural)]
pub struct Wall {
    pub location: Point,
    pub orientation: Orientation,
}

/// A horizontal wall at the origin.
pub fn default_wall() -> (w: Wall)
    ensures
        w == (Wall { location: Point { x: 0, y: 0 }, orientation: Orientation::Horizontal }),
{
    Wall { location: Point { x: 0, y: 0 }, orientation: Orientation::Horizontal }
}

/// Two walls cannot coexist when they share a centre (whatever their
/// orientations), or run the same way and overlap by standing one step
/// apart along their own axis.
pub open spec fn spec_clashes(a: Wall, b: Wall) -> bool {
    ||| a.location == b.location
    ||| (a.orientation == b.orientation && {
        match a.orientation {
            Orientation::Horizontal => a.location.y == b.location.y
                && (a.location.x - b.location.x == 1 || a.location.x - b.location.x == -1),
            Orientation::Vertical => a.location.x == b.location.x
                && (a.location.y - b.location.y == 1 || a.location.y - b.location.y == -1),
        }
    })
}

impl Wall {
    /// Whether this wall and `other` cannot coexist on one board.
    pub fn clashes(&self, other: Wall) -> (r: bool)
        ensures
            r == spec_clashes(*self, other),
    {
        if self.location == other.location {
            return true;
        }
        if self.orientation != other.orientation {
            return false;
        }
        match self.orientation {
            Orientation::Horizontal => {
                self.location.y == other.location.y
                    && (self.location.x as i64 == other.location.x as i64 + 1
                        || self.location.x as i64 + 1 == other.location.x as i64)
            },
            Orientation::Vertical => {
                self.location.x == other.location.x
                    && (self.location.y as i64 == other.location.y as i64 + 1
                        || self.location.y as i64 + 1 == other.location.y as i64)
            },
        }
    }
}

/// Wall clash is symmetric: whichever of the two walls is asked, the answer
/// is the same.
pub proof fn lemma_clashes_symmetric(a: Wall, b: Wall)
    ensures
        spec_clashes(a, b) == spec_clashes(b, a),
{
}

} // verus!
