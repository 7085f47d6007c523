//! The shipyard: the pool of ships that are not on any route.

use vstd::prelude::*;
use crate::ship::Ship;
use crate::shipbuilder::ShipBuilder;

verus! {

/// The number of ships that a new shipyard holds.
pub const FLEET_SIZE: usize = 3;

/// Holds all unplaced ships. Ships in the yard are not told apart: the yard
/// only counts them.
#[derive(Debug, Clone, PartialEq, Eq)]
pub struct Shipyard {
    ships: usize,
}

impl View for Shipyard {
    type V = nat;

    /// The number of ships in the yard.
    closed spec fn view(&self) -> nat {
        self.ships as nat
    }
}

impl Shipyard {
    /// Creates a new shipyard.
    pub fn new() -> (yard: Shipyard)
        ensures
            yard@ == FLEET_SIZE,
    {
        Shipyard { ships: FLEET_SIZE }
    }

    /// Returns the number of available ships.
    pub fn available(&self) -> (n: usize)
        ensures
            n == self@,
    {
        self.ships
    }

    /// Returns whether any ships are available.
    pub fn is_available(&self) -> (any: bool)
        ensures
            any == (self@ > 0),
    {
        self.ships > 0
    }

    /// Hands out a ship builder if a ship is available, and counts one ship
    /// less; hands out nothing from an empty yard, which stays as it is.
    pub fn build(&mut self) -> (builder: Option<ShipBuilder>)
        ensures
            builder is Some <==> old(self)@ > 0,
            builder is Some ==> final(self)@ == old(self)@ - 1,
            builder is None ==> final(self)@ == old(self)@,
    {
        if self.is_available() {
            self.ships -= 1;
            Some(ShipBuilder::new())
        } else {
            None
        }
    }

    /// Takes a builder back into the shipyard: one ship more is available.
    pub fn add_builder(&mut self, builder: ShipBuilder)
        requires
            old(self)@ < usize::MAX,
        ensures
            final(self)@ == old(self)@ + 1,
    {
        self.ships += 1;
    }

    /// Takes a ship back into the shipyard: one ship more is available.
    pub fn add_ship(&mut self, ship: Ship)
        requires
            old(self)@ < usize::MAX,
        ensures
            final(self)@ == old(self)@ + 1,
    {
        self.ships += 1;
    }
}

} // verus!
