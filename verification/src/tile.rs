use vstd::prelude::*;
use crate::geometry::Position;

verus! {

/// What a map cell is made of.
#[derive(Debug, Clone, Copy, PartialEq, Eq, Structural)]
pub enum TileKind {
    Land,
    Water,
}

/// A map cell: a position and what it is made of. Tiles never change.
#[derive(Debug, Clone, Copy, PartialEq, Eq, Structural)]
pub struct Tile {
    pub position: Position,
    pub kind: TileKind,
}

impl Tile {
    /// Creates a new tile.
    pub fn new(position: Position, kind: TileKind) -> (t: Tile)
        ensures
            t.position == position,
            t.kind == kind,
    {
        Tile { position, kind }
    }

    /// Returns the tile kind.
    pub fn kind(&self) -> (k: TileKind)
        ensures
            k == self.kind,
    {
        self.kind
    }

    /// Returns the position.
    pub fn position(&self) -> (p: Position)
        ensures
            p == self.position,
    {
        self.position
    }

    /// Returns the four neighbouring positions: north, east, south, west.
    ///
    /// The tile must not lie on the rim of the coordinate range, where a
    /// neighbour would have no representable coordinate.
    pub fn neighbors(&self) -> (n: [Position; 4])
        requires
            i32::MIN < self.position.x < i32::MAX,
            i32::MIN < self.position.y < i32::MAX,
        ensures
            n@[0] == (Position { x: self.position.x, y: (self.position.y - 1) as i32 }),
            n@[1] == (Position { x: (self.position.x + 1) as i32, y: self.position.y }),
            n@[2] == (Position { x: self.position.x, y: (self.position.y + 1) as i32 }),
            n@[3] == (Position { x: (self.position.x - 1) as i32, y: self.position.y }),
    {
        let x: i32 = self.position.x;
        let y: i32 = self.position.y;
        [
            Position::new(x, y - 1),
            Position::new(x + 1, y),
            Position::new(x, y + 1),
            Position::new(x - 1, y),
        ]
    }
}

} // verus!
