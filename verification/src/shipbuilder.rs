//! The ship builder: a ship taken from the yard and not yet placed.

use vstd::prelude::*;
use crate::geometry::Position;
use crate::waypoint::Waypoint;
use crate::world::{World, WorldView};

verus! {

/// Manages the placement of one ship on a route.
#[derive(Debug, Clone, PartialEq, Eq)]
pub struct ShipBuilder;

impl ShipBuilder {
    /// Creates a new ship builder.
    pub fn new() -> (builder: ShipBuilder) {
        ShipBuilder {  }
    }

    /// Attempts to place a ship at the given position, consuming the ship
    /// builder. Where a route passes the position, a new ship joins the
    /// first such route and nothing comes back; where none does, the world
    /// stays as it is and the builder comes back.
    pub fn try_place(self, position: Position, world: &mut World) -> (unplaced: Option<ShipBuilder>)
        ensures
            unplaced is None <==> old(world)@.hosts(Waypoint(position)),
            final(world)@ == (if unplaced is None {
                old(world)@.with_ship(Waypoint(position))
            } else {
                old(world)@
            }),
            WorldView::placed(final(world)@.routes) == WorldView::placed(old(world)@.routes) + (
            if unplaced is None {
                1nat
            } else {
                0nat
            }),
            old(world)@.wf() ==> final(world)@.wf(),
    {
        if world.place_ship(position) {
            None
        } else {
            Some(self)
        }
    }
}

} // verus!
