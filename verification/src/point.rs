//! Grid coordinates and the four move directions.

use vstd::prelude::*;

verus! {

/// One of the four axis-aligned move directions.
#[derive(Clone, Copy, Debug, PartialEq, Eq, Structural)]
pub enum Direction {
    Up,
    Down,
    Left,
    Right,
}

/// Unit change along the x axis for a step in direction `d`.
pub open spec fn dir_dx(d: Direction) -> int {
    match d {
        Direction::Right => 1,
        Direction::Left => -1,
        _ => 0,
    }
}

/// Unit change along the y axis for a step in direction `d`.
pub open spec fn dir_dy(d: Direction) -> int {
    match d {
        Direction::Up => 1,
        Direction::Down => -1,
        _ => 0,
    }
}

/// A cell coordinate: column `x`, row `y`, both zero-based.  Bounds are a
/// board property, not a coordinate property, so any pair is a `Point`.
#[derive(Clone, Copy, Debug, PartialEq, Eq, Structural)]
pub struct Point {
    pub x: i32,
    pub y: i32,
}

/// Builds the point at column `x`, row `y`.
pub fn create(x: i32, y: i32) -> (p: Point)
    ensures
        p == (Point { x, y }),
{
    Point { x, y }
}

impl Point {
    /// The point moved by `change_x` columns and `change_y` rows.
    pub fn shift(self, change_x: i32, change_y: i32) -> (r: Point)
        requires
            i32::MIN <= self.x + change_x <= i32::MAX,
            i32::MIN <= self.y + change_y <= i32::MAX,
        ensures
            r.x == self.x + change_x,
            r.y == self.y + change_y,
    {
        Point { x: self.x + change_x, y: self.y + change_y }
    }

    /// The point one step away in `direction`.
    pub fn shift_direction(self, direction: Direction) -> (r: Point)
        requires
            i32::MIN <= self.x + dir_dx(direction) <= i32::MAX,
            i32::MIN <= self.y + dir_dy(direction) <= i32::MAX,
        ensures
            r.x == self.x + dir_dx(direction),
            r.y == self.y + dir_dy(direction),
    {
        match direction {
            Direction::Up => self.shift(0, 1),
            Direction::Right => self.shift(1, 0),
            Direction::Down => self.shift(0, -1),
            Direction::Left => self.shift(-1, 0),
        }
    }

    /// The point at column 0, row 0.
    pub fn origin() -> (p: Point)
        ensures
            p == (Point { x: 0, y: 0 }),
    {
        create(0, 0)
    }
}

} // verus!
