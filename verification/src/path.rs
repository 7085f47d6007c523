//! The path drawer: a walk between two positions, with its cost, kept up to
//! date while the second position moves.

use vstd::prelude::*;
use crate::geometry::Position;
use crate::pathfinder::{connected, is_shortest, MAX_TILES};
use crate::world::{World, WorldView};

verus! {

/// The state of a path drawer.
pub struct PathDrawerView {
    /// Where the walk starts.
    pub from: Position,
    /// Where the walk ends, for now.
    pub to: Position,
    /// The cost and the cells of the walk found between the two, if one was
    /// looked for and found.
    pub path: Option<(i32, Seq<Position>)>,
}

impl PathDrawerView {
    /// This drawer is what comes of moving the end of `before` to `new_to`
    /// in the given world. Where the end stays, so does the drawer. Where it
    /// moves, the walk is a cheapest one from the start to the new end, with
    /// its cost, or is missing if the world has no walk between them.
    pub open spec fn follows(self, before: PathDrawerView, new_to: Position, world: WorldView) -> bool {
        if new_to == before.to {
            self == before
        } else {
            &&& self.from == before.from
            &&& self.to == new_to
            &&& match self.path {
                Some((cost, walk)) => is_shortest(
                    world.map,
                    world.open_ports,
                    world.waypoints(),
                    walk,
                    before.from,
                    new_to,
                    cost as int,
                ),
                None => !connected(world.map, world.open_ports, before.from, new_to),
            }
        }
    }
}

/// Keeps the cheapest walk from a fixed position to a moving one.
#[derive(Debug, Clone)]
pub struct PathDrawer {
    from: Position,
    to: Position,
    path: Option<(i32, Vec<Position>)>,
}

impl View for PathDrawer {
    type V = PathDrawerView;

    closed spec fn view(&self) -> PathDrawerView {
        PathDrawerView {
            from: self.from,
            to: self.to,
            path: match self.path {
                Some((cost, walk)) => Some((cost, walk@)),
                None => None,
            },
        }
    }
}

impl PathDrawer {
    /// Creates a new path drawer that starts and ends at `from` and has no
    /// walk yet.
    pub fn new(from: Position) -> (drawer: PathDrawer)
        ensures
            drawer@ == (PathDrawerView { from, to: from, path: None }),
    {
        PathDrawer { from, to: from, path: None }
    }

    /// Updates the walk for the end point given. Nothing is looked for while
    /// the end point stays where it was.
    pub fn update(&mut self, new_to: Position, world: &World)
        requires
            world@.map.len() <= MAX_TILES,
        ensures
            final(self)@.follows(old(self)@, new_to, world@),
    {
        if new_to != self.to {
            self.to = new_to;
            self.path = world.route(self.from, self.to);
        }
    }

    /// Returns the current walk with its cost, if any.
    pub fn path(&self) -> (path: &Option<(i32, Vec<Position>)>)
        ensures
            match *path {
                Some((cost, walk)) => self@.path == Some((cost, walk@)),
                None => self@.path is None,
            },
    {
        &self.path
    }
}

} // verus!
