//! The count of ships: no ship is made or lost when ships are built,
//! placed, taken off their routes or handed back to the yard.
//!
//! The ledger below keeps three counts: the ships in the yard, the ships
//! on routes, and the ships in hand, which are the builders that the yard
//! handed out and the ships that came off removed routes, until they go
//! back to the yard or onto a route. Each move changes the counts as the
//! function of the same name says it changes the world.

use vstd::prelude::*;
use crate::lookup::lemma_first_index;
use crate::waypoint::Waypoint;
use crate::world::{lemma_placed_one_more, lemma_removal_keeps_ships, WorldView};

verus! {

/// Where the ships are.
pub struct Ledger {
    /// Ships in the yard: `Shipyard::available`.
    pub yard: nat,
    /// Ships on routes: `WorldView::placed`.
    pub placed: nat,
    /// Builders and ships that the caller holds.
    pub in_hand: nat,
}

/// A call that moves ships.
pub enum Move {
    /// `Shipyard::build`.
    Build,
    /// `Shipyard::add_builder`.
    AddBuilder,
    /// `Shipyard::add_ship`.
    AddShip,
    /// `ShipBuilder::try_place`; whether a route passes the position.
    TryPlace(bool),
    /// `World::remove_routes_at`; the number of ships on the routes
    /// removed.
    RemoveRoutes(nat),
}

impl Ledger {
    /// The number of ships in all.
    pub open spec fn total(self) -> nat {
        self.yard + self.placed + self.in_hand
    }

    /// The move can be made: what it hands over is there.
    pub open spec fn allows(self, step: Move) -> bool {
        match step {
            Move::Build => true,
            Move::AddBuilder => self.in_hand >= 1,
            Move::AddShip => self.in_hand >= 1,
            Move::TryPlace(_) => self.in_hand >= 1,
            Move::RemoveRoutes(ships) => ships <= self.placed,
        }
    }

    /// The ledger after a move.
    pub open spec fn after(self, step: Move) -> Ledger {
        match step {
            Move::Build => if self.yard > 0 {
                Ledger { yard: (self.yard - 1) as nat, in_hand: self.in_hand + 1, ..self }
            } else {
                self
            },
            Move::AddBuilder => Ledger {
                yard: self.yard + 1,
                in_hand: (self.in_hand - 1) as nat,
                ..self
            },
            Move::AddShip => Ledger {
                yard: self.yard + 1,
                in_hand: (self.in_hand - 1) as nat,
                ..self
            },
            Move::TryPlace(hosted) => if hosted {
                Ledger { placed: self.placed + 1, in_hand: (self.in_hand - 1) as nat, ..self }
            } else {
                self
            },
            Move::RemoveRoutes(ships) => Ledger {
                placed: (self.placed - ships) as nat,
                in_hand: self.in_hand + ships,
                ..self
            },
        }
    }

    /// Every one of the moves can be made when its turn comes.
    pub open spec fn allows_all(self, steps: Seq<Move>) -> bool
        decreases steps.len(),
    {
        steps.len() > 0 ==> self.allows(steps[0]) && self.after(steps[0]).allows_all(
            steps.drop_first(),
        )
    }

    /// The ledger after a sequence of moves.
    pub open spec fn after_all(self, steps: Seq<Move>) -> Ledger
        decreases steps.len(),
    {
        if steps.len() == 0 {
            self
        } else {
            self.after(steps[0]).after_all(steps.drop_first())
        }
    }
}

/// No move makes or loses a ship.
pub proof fn lemma_move_keeps_total(ledger: Ledger, step: Move)
    requires
        ledger.allows(step),
    ensures
        ledger.after(step).total() == ledger.total(),
{
}

/// The number of ships in the yard, on routes and in hand, taken together,
/// is the same after any sequence of moves as before.
pub proof fn lemma_fleet_is_conserved(ledger: Ledger, steps: Seq<Move>)
    requires
        ledger.allows_all(steps),
    ensures
        ledger.after_all(steps).total() == ledger.total(),
    decreases steps.len(),
{
    if steps.len() > 0 {
        lemma_move_keeps_total(ledger, steps[0]);
        lemma_fleet_is_conserved(ledger.after(steps[0]), steps.drop_first());
    }
}

/// The ledger of a world, for a caller who holds `in_hand` builders and
/// ships.
pub open spec fn ledger_of(world: WorldView, in_hand: nat) -> Ledger {
    Ledger { yard: world.shipyard, placed: WorldView::placed(world.routes), in_hand }
}

/// What `Shipyard::build` does to a world is the move `Build`: with a ship
/// in the yard, the yard has one less and the caller one more; with an
/// empty yard, nothing changes.
pub proof fn lemma_build_is_a_move(world: WorldView, in_hand: nat)
    ensures
        world.shipyard > 0 ==> ledger_of(world, in_hand).after(Move::Build) == ledger_of(
            WorldView { shipyard: (world.shipyard - 1) as nat, ..world },
            in_hand + 1,
        ),
        world.shipyard == 0 ==> ledger_of(world, in_hand).after(Move::Build) == ledger_of(
            world,
            in_hand,
        ),
{
}

/// What `Shipyard::add_builder` and `Shipyard::add_ship` do to a world are
/// the moves `AddBuilder` and `AddShip`: the yard has one more and the
/// caller one less.
pub proof fn lemma_return_is_a_move(world: WorldView, in_hand: nat)
    requires
        in_hand >= 1,
    ensures
        ledger_of(world, in_hand).after(Move::AddBuilder) == ledger_of(
            WorldView { shipyard: world.shipyard + 1, ..world },
            (in_hand - 1) as nat,
        ),
        ledger_of(world, in_hand).after(Move::AddShip) == ledger_of(
            WorldView { shipyard: world.shipyard + 1, ..world },
            (in_hand - 1) as nat,
        ),
{
}

/// What `ShipBuilder::try_place` does to a world is the move `TryPlace`:
/// where a route passes the waypoint, the routes have one ship more and the
/// caller one builder less; where none does, nothing changes.
pub proof fn lemma_try_place_is_a_move(world: WorldView, waypoint: Waypoint, in_hand: nat)
    requires
        in_hand >= 1,
    ensures
        world.hosts(waypoint) ==> ledger_of(world, in_hand).after(Move::TryPlace(true))
            == ledger_of(world.with_ship(waypoint), (in_hand - 1) as nat),
        !world.hosts(waypoint) ==> ledger_of(world, in_hand).after(Move::TryPlace(false))
            == ledger_of(world, in_hand),
{
    if world.hosts(waypoint) {
        lemma_first_index(world.passing(waypoint), true);
        lemma_placed_one_more(world.routes, world.host(waypoint), world.new_ship(waypoint));
    }
}

/// What `World::remove_routes_at` does to a world is the move
/// `RemoveRoutes`: the ships of the routes removed leave the routes and
/// come into the caller's hand.
pub proof fn lemma_remove_routes_is_a_move(world: WorldView, waypoint: Waypoint, in_hand: nat)
    ensures
        ledger_of(world, in_hand).allows(
            Move::RemoveRoutes(WorldView::evicted(world.routes, waypoint).len()),
        ),
        ledger_of(world, in_hand).after(
            Move::RemoveRoutes(WorldView::evicted(world.routes, waypoint).len()),
        ) == ledger_of(
            WorldView { routes: WorldView::kept(world.routes, waypoint), ..world },
            in_hand + WorldView::evicted(world.routes, waypoint).len(),
        ),
{
    lemma_removal_keeps_ships(world.routes, waypoint);
}

} // verus!
