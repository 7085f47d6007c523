//! The route builder: the preview of a route while its end is being chosen.

use vstd::prelude::*;
use crate::geometry::Position;
use crate::pathfinder::{connected, MAX_TILES};
use crate::route::is_cheapest;
use crate::waypoint::{positions_of, to_waypoints, Waypoint};
use crate::world::{World, WorldView};

verus! {

/// The state of a route builder.
pub struct RouteBuilderView {
    /// Where the route starts.
    pub from: Position,
    /// Where the route ends, for now.
    pub to: Position,
    /// The path found between the two, if one was looked for and found.
    pub path: Option<Seq<Waypoint>>,
}

impl RouteBuilderView {
    /// This builder is what comes of moving the end of `before` to
    /// `new_to` in the given world. Where the end stays, so does the
    /// builder. Where it moves, the path is a cheapest walk from the start
    /// to the new end, or is missing if the world has no walk between them.
    pub open spec fn follows(self, before: RouteBuilderView, new_to: Position, world: WorldView) -> bool {
        if new_to == before.to {
            self == before
        } else {
            &&& self.from == before.from
            &&& self.to == new_to
            &&& match self.path {
                Some(path) => is_cheapest(
                    world.map,
                    world.open_ports,
                    world.waypoints(),
                    positions_of(path),
                    before.from,
                    new_to,
                ),
                None => !connected(world.map, world.open_ports, before.from, new_to),
            }
        }
    }
}

/// Manages a route in creation or extension.
#[derive(Debug, Clone)]
pub struct RouteBuilder {
    from: Position,
    to: Position,
    path: Option<Vec<Waypoint>>,
}

impl View for RouteBuilder {
    type V = RouteBuilderView;

    closed spec fn view(&self) -> RouteBuilderView {
        RouteBuilderView {
            from: self.from,
            to: self.to,
            path: match self.path {
                Some(path) => Some(path@),
                None => None,
            },
        }
    }
}

impl RouteBuilder {
    /// Creates a new route builder that starts and ends at `from` and has
    /// no path yet.
    pub fn new(from: Position) -> (builder: RouteBuilder)
        ensures
            builder@ == (RouteBuilderView { from, to: from, path: None }),
    {
        RouteBuilder { from, to: from, path: None }
    }

    /// Updates the best path for the end point given. Nothing is looked for
    /// while the end point stays where it was.
    pub fn update(&mut self, new_to: Position, world: &World)
        requires
            world@.map.len() <= MAX_TILES,
        ensures
            final(self)@.follows(old(self)@, new_to, world@),
    {
        if new_to != self.to {
            self.to = new_to;
            self.path = match world.route(self.from, self.to) {
                Some((_, walk)) => {
                    let path = to_waypoints(&walk);
                    assert(positions_of(path@) =~= walk@);
                    Some(path)
                },
                None => None,
            };
        }
    }

    /// Returns the current path, if any.
    pub fn path(&self) -> (path: &Option<Vec<Waypoint>>)
        ensures
            match *path {
                Some(p) => self@.path == Some(p@),
                None => self@.path is None,
            },
    {
        &self.path
    }

    /// Returns the starting position.
    pub fn from(&self) -> (from: &Position)
        ensures
            *from == self@.from,
    {
        &self.from
    }

    /// Returns the end position.
    pub fn to(&self) -> (to: &Position)
        ensures
            *to == self@.to,
    {
        &self.to
    }
}

} // verus!
