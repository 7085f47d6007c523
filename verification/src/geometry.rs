use vstd::prelude::*;
use vstd::std_specs::ops::{AddSpecImpl, SubSpecImpl};
use std::ops::{Add, Sub};

verus! {

/// A point on the integer grid.
#[derive(Debug, Clone, Copy, PartialEq, Eq, Hash, Structural)]
pub struct Position {
    pub x: i32,
    pub y: i32,
}

/// The number of grid steps between two points when only horizontal and
/// vertical moves are allowed.
pub open spec fn manhattan(a: Position, b: Position) -> int {
    (if a.x >= b.x { a.x - b.x } else { b.x - a.x })
        + (if a.y >= b.y { a.y - b.y } else { b.y - a.y })
}

/// Two points are adjacent when they coincide or are direct neighbours
/// (north, east, south or west).
pub open spec fn adjacent(a: Position, b: Position) -> bool {
    manhattan(a, b) <= 1
}

impl Position {
    /// Creates a new position with the given coordinates.
    pub fn new(x: i32, y: i32) -> (p: Position)
        ensures
            p.x == x,
            p.y == y,
    {
        Position { x, y }
    }

    /// Tells whether `other` is this point or one of its four neighbours.
    pub fn is_adjacent(self, other: Position) -> (b: bool)
        ensures
            b == adjacent(self, other),
    {
        let dx: i64 = if self.x >= other.x {
            self.x as i64 - other.x as i64
        } else {
            other.x as i64 - self.x as i64
        };
        let dy: i64 = if self.y >= other.y {
            self.y as i64 - other.y as i64
        } else {
            other.y as i64 - self.y as i64
        };
        dx + dy <= 1
    }
}

impl Add for Position {
    type Output = Position;

    /// Adds two positions coordinate by coordinate.
    fn add(self, other: Position) -> (sum: Position) {
        Position::new(self.x + other.x, self.y + other.y)
    }
}

impl AddSpecImpl for Position {
    open spec fn obeys_add_spec() -> bool {
        true
    }

    /// The sum must have coordinates that fit.
    open spec fn add_req(self, other: Position) -> bool {
        &&& i32::MIN <= self.x + other.x <= i32::MAX
        &&& i32::MIN <= self.y + other.y <= i32::MAX
    }

    open spec fn add_spec(self, other: Position) -> Position {
        Position { x: (self.x + other.x) as i32, y: (self.y + other.y) as i32 }
    }
}

impl Sub for Position {
    type Output = Position;

    /// Subtracts two positions coordinate by coordinate.
    fn sub(self, other: Position) -> (difference: Position) {
        Position::new(self.x - other.x, self.y - other.y)
    }
}

impl SubSpecImpl for Position {
    open spec fn obeys_sub_spec() -> bool {
        true
    }

    /// The difference must have coordinates that fit.
    open spec fn sub_req(self, other: Position) -> bool {
        &&& i32::MIN <= self.x - other.x <= i32::MAX
        &&& i32::MIN <= self.y - other.y <= i32::MAX
    }

    open spec fn sub_spec(self, other: Position) -> Position {
        Position { x: (self.x - other.x) as i32, y: (self.y - other.y) as i32 }
    }
}

impl Default for Position {
    /// Creates a new position at the origin.
    fn default() -> (p: Position)
        ensures
            p == (Position { x: 0, y: 0 }),
    {
        Position::new(0, 0)
    }
}

} // verus!

pub use crate::frontier::OrdPosition;
