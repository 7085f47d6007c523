//! What a player can do to the world: start and finish a route, place a
//! ship, tear routes down. Each command looks before it acts, and says
//! what it did.

use vstd::prelude::*;
use crate::geometry::Position;
use crate::route::copy_path;
use crate::routebuilder::{RouteBuilder, RouteBuilderView};
use crate::shape::RouteShape;
use crate::shipbuilder::ShipBuilder;
use crate::waypoint::Waypoint;
use crate::world::{ship_views, World, WorldView};

verus! {

/// What became of an attempt to finish a route.
#[derive(Debug, Clone, Copy, PartialEq, Eq, Structural)]
pub enum Commit {
    /// The link was added to the route.
    Added,
    /// The link is not on offer: no open port lies at the end, or the route
    /// may not end there, or no path was found for it. Nothing changed.
    Declined,
    /// The link is on offer, yet the map holds no walk for one of the paths
    /// that the route would need. Nothing changed.
    Unreachable,
}

/// Tells whether `positions` holds `position`.
fn includes(positions: &Vec<Position>, position: Position) -> (found: bool)
    ensures
        found == positions@.contains(position),
{
    let mut k: usize = 0;
    while k < positions.len()
        invariant
            k <= positions@.len(),
            forall|m: int| 0 <= m < k ==> positions@[m] != position,
        decreases positions@.len() - k,
    {
        if positions[k] == position {
            return true;
        }
        k += 1;
    }
    false
}

impl WorldView {
    /// A route of the given shape may start at `position`: an open port
    /// lies there, and it is among the allowed starts.
    pub open spec fn offers_start(self, shape: RouteShape, position: Position) -> bool {
        self.port(position) is Some && self.allowed_starts(shape).contains(position)
    }

    /// The route that `builder` previews may be finished at `position`: an
    /// open port lies there, it is among the allowed ends, and the builder
    /// has a path.
    pub open spec fn offers_end(
        self,
        shape: RouteShape,
        builder: RouteBuilderView,
        position: Position,
    ) -> bool {
        &&& self.port(position) is Some
        &&& self.allowed_ends(builder.from, shape).contains(position)
        &&& builder.path is Some
    }
}

impl World {
    /// Starts a route of the given shape at `position`, if an open port
    /// lies there and such a route may start there.
    pub fn begin_route(&self, shape: RouteShape, position: Position) -> (builder: Option<RouteBuilder>)
        requires
            self@.wf(),
        ensures
            builder is Some <==> self@.offers_start(shape, position),
            builder is Some ==> builder->0@ == (RouteBuilderView {
                from: position,
                to: position,
                path: None,
            }),
    {
        if self.port(position).is_none() {
            return None;
        }
        let starts = self.allowed_starts(shape);
        if includes(&starts, position) {
            Some(RouteBuilder::new(position))
        } else {
            None
        }
    }

    /// Finishes the route that `builder` previews, at `position`: adds the
    /// link from the builder's start to its end to the route of the given
    /// shape, if the link is on offer and the map holds the walks for it.
    pub fn commit_route(&mut self, shape: RouteShape, builder: &RouteBuilder, position: Position) -> (done: Commit)
        requires
            old(self)@.wf(),
        ensures
            final(self)@.wf(),
            old(self)@.chained() ==> final(self)@.chained(),
            match done {
                Commit::Added => {
                    &&& old(self)@.offers_end(shape, builder@, position)
                    &&& old(self)@.can_add_route(shape, builder@.from, builder@.to)
                    &&& final(self)@.adds_route(old(self)@, shape, builder@.from, builder@.to)
                },
                Commit::Declined => {
                    &&& !old(self)@.offers_end(shape, builder@, position)
                    &&& final(self)@ == old(self)@
                },
                Commit::Unreachable => {
                    &&& old(self)@.offers_end(shape, builder@, position)
                    &&& !old(self)@.can_add_route(shape, builder@.from, builder@.to)
                    &&& final(self)@ == old(self)@
                },
            },
    {
        if self.port(position).is_none() {
            return Commit::Declined;
        }
        let from = *builder.from();
        let to = *builder.to();
        let ends = self.allowed_ends(from, shape);
        if !includes(&ends, position) {
            return Commit::Declined;
        }
        match builder.path() {
            Some(path) => {
                if !self.can_add_route(shape, from, to) {
                    return Commit::Unreachable;
                }
                self.add_route(shape, from, to, copy_path(path));
                Commit::Added
            },
            None => Commit::Declined,
        }
    }

    /// Removes all routes going through the given waypoint and hands their
    /// ships back to the shipyard. Returns the number of ships handed back.
    pub fn recall_routes_at(&mut self, waypoint: Waypoint) -> (count: usize)
        requires
            old(self)@.fleet() <= usize::MAX,
        ensures
            final(self)@ == (WorldView {
                routes: WorldView::kept(old(self)@.routes, waypoint),
                shipyard: old(self)@.shipyard + count as nat,
                ..old(self)@
            }),
            count == WorldView::evicted(old(self)@.routes, waypoint).len(),
            final(self)@.fleet() == old(self)@.fleet(),
            old(self)@.wf() ==> final(self)@.wf(),
    {
        let ghost before = self@;
        let mut ships = self.remove_routes_at(waypoint);
        let ghost between = self@;
        let count = ships.len();
        proof {
            assert(ships@.len() == ship_views(ships@).len());
        }
        let mut returned: usize = 0;
        while ships.len() > 0
            invariant
                returned + ships@.len() == count,
                self@ == (WorldView { shipyard: between.shipyard + returned as nat, ..between }),
                between.shipyard + count <= usize::MAX,
            decreases ships@.len(),
        {
            match ships.pop() {
                Some(ship) => {
                    self.shipyard_mut().add_ship(ship);
                    returned += 1;
                },
                None => {},
            }
        }
        count
    }
}

impl ShipBuilder {
    /// Places a ship at the given position where a route passes it, and
    /// hands the builder back to the shipyard where none does. Tells
    /// whether the ship was placed. Either way the world has one ship
    /// more than before: on a route, or in the yard.
    pub fn place_or_return(self, position: Position, world: &mut World) -> (placed: bool)
        requires
            old(world)@.shipyard < usize::MAX,
        ensures
            placed == old(world)@.hosts(Waypoint(position)),
            final(world)@ == (if placed {
                old(world)@.with_ship(Waypoint(position))
            } else {
                WorldView { shipyard: old(world)@.shipyard + 1nat, ..old(world)@ }
            }),
            final(world)@.fleet() == old(world)@.fleet() + 1,
            old(world)@.wf() ==> final(world)@.wf(),
    {
        match self.try_place(position, world) {
            Some(builder) => {
                world.shipyard_mut().add_builder(builder);
                false
            },
            None => true,
        }
    }
}

} // verus!
