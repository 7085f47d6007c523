//! Ships: where a ship is on its path, which way it sails, what it carries
//! and how long it still lies in dock.
//!
//! A ship sails from waypoint to waypoint of its path. Its smooth movement
//! between two waypoints is a matter of display and is kept by whoever draws
//! it; what is decided here is what happens when the ship has covered the
//! distance to the next waypoint.

use vstd::prelude::*;
use crate::color::Color;
use crate::lookup::{first_index, lemma_first_index};
use crate::waypoint::Waypoint;

verus! {

/// How long a ship lies in dock after it reached the end of its path, in
/// milliseconds.
pub const DOCK_TIME: u64 = 999;

/// The state of a ship.
pub struct ShipView {
    /// Milliseconds left in dock; zero while the ship sails.
    pub docked: nat,
    /// The waypoint that the ship reached last.
    pub at: Waypoint,
    /// The path that the ship sails on.
    pub path: Seq<Waypoint>,
    /// Whether the ship sails its path back to front.
    pub reverse: bool,
    /// The goods on board, with the waypoint where they were loaded.
    pub cargo: Option<(Waypoint, Color)>,
}

/// The waypoint that follows `waypoint` on `path`, sailing it back to front
/// if `reverse`; `None` where the path ends.
pub open spec fn next_on(path: Seq<Waypoint>, waypoint: Waypoint, reverse: bool) -> Option<
    Waypoint,
> {
    let i = first_index(path, waypoint);
    if reverse {
        if i >= 1 {
            Some(path[i - 1])
        } else {
            None
        }
    } else {
        if i < path.len() - 1 {
            Some(path[i + 1])
        } else {
            None
        }
    }
}

impl ShipView {
    /// The ship is on its path.
    pub open spec fn wf(self) -> bool {
        self.path.contains(self.at)
    }

    /// The place of the ship on its path.
    pub open spec fn index(self) -> int {
        first_index(self.path, self.at)
    }

    /// The waypoint that the ship sails towards, if its path goes on.
    pub open spec fn next(self) -> Option<Waypoint> {
        next_on(self.path, self.at, self.reverse)
    }

    /// The ship lies in dock.
    pub open spec fn is_docked(self) -> bool {
        self.docked > 0
    }

    /// The waypoint that the ship sails towards is the last of its path, or
    /// the path ends even before.
    pub open spec fn is_arriving(self) -> bool {
        if self.reverse {
            self.index() < 2
        } else {
            self.index() + 2 >= self.path.len()
        }
    }

    /// The ship is at the waypoint where its path begins, as it sails it.
    pub open spec fn is_leaving(self) -> bool {
        if self.reverse {
            self.index() == self.path.len() - 1
        } else {
            self.index() == 0
        }
    }

    /// The ship after `elapsed` milliseconds in dock.
    pub open spec fn waited(self, elapsed: nat) -> ShipView {
        ShipView {
            docked: if self.docked >= elapsed {
                (self.docked - elapsed) as nat
            } else {
                0
            },
            ..self
        }
    }

    /// `next_path` can take over from the ship's path at `waypoint`: it holds
    /// the waypoint and goes on from there.
    pub open spec fn continues(self, next_path: Seq<Waypoint>, waypoint: Waypoint) -> bool {
        next_path.contains(waypoint) && next_on(next_path, waypoint, self.reverse) is Some
    }

    /// The ship after it reached the waypoint that it sailed towards.
    ///
    /// Where its path goes on, it sails on. Where the path ends, it docks:
    /// it takes `next_path` for its path if that holds any waypoint, and
    /// turns round on its own path otherwise.
    pub open spec fn arrived(self, next_path: Option<Seq<Waypoint>>) -> ShipView {
        let moved = ShipView { at: self.next()->0, ..self };
        if moved.next() is Some {
            moved
        } else if next_path is Some && next_path->0.len() > 0 {
            ShipView { path: next_path->0, docked: DOCK_TIME as nat, ..moved }
        } else {
            ShipView { reverse: !moved.reverse, docked: DOCK_TIME as nat, ..moved }
        }
    }

    /// The ship can take the step that `arrived` describes.
    pub open spec fn can_arrive(self, next_path: Option<Seq<Waypoint>>) -> bool {
        &&& self.next() is Some
        &&& ({
            let moved = ShipView { at: self.next()->0, ..self };
            moved.next() is None && next_path is Some && next_path->0.len() > 0
                ==> moved.continues(next_path->0, moved.at)
        })
    }

    /// The ship after one tick: `elapsed` milliseconds have passed, and
    /// `reached` says whether the ship, if it sails, has covered the distance
    /// to its next waypoint.
    pub open spec fn ticked(self, elapsed: nat, reached: bool, next_path: Option<Seq<Waypoint>>) -> ShipView {
        if self.is_docked() {
            self.waited(elapsed)
        } else if reached {
            self.arrived(next_path)
        } else {
            self
        }
    }

    /// The ship after an attempt to unload.
    pub open spec fn unloaded(self) -> ShipView {
        if self.unloads() is Some {
            ShipView { cargo: None, ..self }
        } else {
            self
        }
    }

    /// What an attempt to unload yields: the cargo, unless it was loaded
    /// where the ship is.
    pub open spec fn unloads(self) -> Option<Color> {
        match self.cargo {
            Some((origin, color)) => if origin != self.at {
                Some(color)
            } else {
                None
            },
            None => None,
        }
    }

    /// The ship after an attempt to load `color`.
    pub open spec fn loaded(self, color: Color) -> ShipView {
        if self.cargo is None {
            ShipView { cargo: Some((self.at, color)), ..self }
        } else {
            self
        }
    }

    /// The ship after it traded with a port that exports `export`.
    pub open spec fn traded(self, export: Color) -> ShipView {
        if self.unloads() is Some {
            self.unloaded()
        } else {
            self.loaded(export)
        }
    }

    /// What trading with a port that imports `import` and exports `export`
    /// comes to.
    pub open spec fn trade(self, import: Color, export: Color) -> Trade {
        match self.unloads() {
            Some(color) => if color == import {
                Trade::Delivered(color)
            } else {
                Trade::Discarded(color)
            },
            None => Trade::Loading(export),
        }
    }
}

/// The waypoints of a path that may be missing.
pub open spec fn path_view(path: Option<Vec<Waypoint>>) -> Option<Seq<Waypoint>> {
    match path {
        Some(p) => Some(p@),
        None => None,
    }
}

/// What a ship in dock did with its cargo.
#[derive(Debug, Clone, Copy, PartialEq, Eq, Structural)]
pub enum Trade {
    /// It unloaded goods that the port imports: a delivery that scores.
    Delivered(Color),
    /// It unloaded goods that the port has no use for.
    Discarded(Color),
    /// It had nothing to unload; it took the port's export on board unless it
    /// carried cargo already.
    Loading(Color),
}

/// A ship which transports goods between ports along a route.
#[derive(Debug, Clone, PartialEq, Eq)]
pub struct Ship {
    docked: u64,
    current_waypoint: Waypoint,
    path: Vec<Waypoint>,
    reverse: bool,
    cargo: Option<(Waypoint, Color)>,
}

impl View for Ship {
    type V = ShipView;

    closed spec fn view(&self) -> ShipView {
        ShipView {
            docked: self.docked as nat,
            at: self.current_waypoint,
            path: self.path@,
            reverse: self.reverse,
            cargo: self.cargo,
        }
    }
}

/// Finds the first place of `waypoint` on `path`.
fn position_on(path: &Vec<Waypoint>, waypoint: Waypoint) -> (i: usize)
    requires
        path@.contains(waypoint),
    ensures
        i == first_index(path@, waypoint),
        i < path@.len(),
{
    proof {
        lemma_first_index(path@, waypoint);
    }
    let mut i: usize = 0;
    while i < path.len()
        invariant
            i <= first_index(path@, waypoint) < path@.len(),
            path@[first_index(path@, waypoint)] == waypoint,
            forall|k: int| 0 <= k < first_index(path@, waypoint) ==> path@[k] != waypoint,
        decreases path@.len() - i,
    {
        if path[i] == waypoint {
            return i;
        }
        i += 1;
    }
    i
}

/// Tells whether `waypoint` lies on `path`.
pub fn lies_on(path: &Vec<Waypoint>, waypoint: Waypoint) -> (found: bool)
    ensures
        found == path@.contains(waypoint),
{
    let mut k: usize = 0;
    while k < path.len()
        invariant
            k <= path@.len(),
            forall|m: int| 0 <= m < k ==> path@[m] != waypoint,
        decreases path@.len() - k,
    {
        if path[k] == waypoint {
            return true;
        }
        k += 1;
    }
    false
}

/// Returns the waypoint after `waypoint` on `path`, read back to front if
/// `reverse`.
fn following(path: &Vec<Waypoint>, waypoint: Waypoint, reverse: bool) -> (next: Option<Waypoint>)
    requires
        path@.contains(waypoint),
    ensures
        next == next_on(path@, waypoint, reverse),
{
    let i = position_on(path, waypoint);
    if reverse {
        if i >= 1 {
            Some(path[i - 1])
        } else {
            None
        }
    } else {
        if i < path.len() - 1 {
            Some(path[i + 1])
        } else {
            None
        }
    }
}

impl Ship {
    /// Creates a new ship at `position`, which lies on `path`. The ship
    /// sails the path front to back, out of dock and without cargo.
    pub fn new(position: Waypoint, path: Vec<Waypoint>) -> (ship: Ship)
        requires
            path@.contains(position),
        ensures
            ship@ == (ShipView {
                docked: 0,
                at: position,
                path: path@,
                reverse: false,
                cargo: None,
            }),
            ship@.wf(),
    {
        Ship { docked: 0, current_waypoint: position, path, reverse: false, cargo: None }
    }

    /// Returns the ship's current position.
    pub fn position(&self) -> (w: Waypoint)
        ensures
            w == self@.at,
    {
        self.current_waypoint
    }

    /// Returns whether the ship currently is on its return trip.
    pub fn reverse(&self) -> (r: bool)
        ensures
            r == self@.reverse,
    {
        self.reverse
    }

    /// Returns the path that the ship sails on.
    pub fn path(&self) -> (p: &Vec<Waypoint>)
        ensures
            p@ == self@.path,
    {
        &self.path
    }

    /// Returns the milliseconds that the ship still lies in dock.
    pub fn docked(&self) -> (ms: u64)
        ensures
            ms == self@.docked,
    {
        self.docked
    }

    /// Returns the next waypoint on the ship's current path: the one before
    /// the ship's own if it is on its return trip, the one after it
    /// otherwise; `None` where the path ends.
    pub fn next_waypoint(&self) -> (next: Option<Waypoint>)
        requires
            self@.wf(),
        ensures
            next == self@.next(),
    {
        following(&self.path, self.current_waypoint, self.reverse)
    }

    /// Returns whether the ship is currently docked.
    pub fn is_docked(&self) -> (d: bool)
        ensures
            d == self@.is_docked(),
    {
        self.docked > 0
    }

    /// Returns the current cargo, if any.
    pub fn cargo(&self) -> (c: Option<Color>)
        ensures
            c == match self@.cargo {
                Some((_, color)) => Some(color),
                None => None,
            },
    {
        match self.cargo {
            Some((_, color)) => Some(color),
            None => None,
        }
    }

    /// Attempts to unload the current cargo. Cargo leaves the ship unless it
    /// was loaded at the very waypoint where the ship is.
    pub fn try_unload(&mut self) -> (c: Option<Color>)
        ensures
            c == old(self)@.unloads(),
            final(self)@ == old(self)@.unloaded(),
    {
        let unloaded = match self.cargo {
            Some((origin, color)) => if origin != self.current_waypoint {
                Some(color)
            } else {
                None
            },
            None => None,
        };
        if unloaded.is_some() {
            self.cargo = None;
        }
        unloaded
    }

    /// Attempts to load the given colour as cargo, doing nothing if the ship
    /// is loaded already.
    pub fn try_load(&mut self, color: Color)
        ensures
            final(self)@ == old(self)@.loaded(color),
    {
        if self.cargo.is_none() {
            self.cargo = Some((self.current_waypoint, color));
        }
    }

    /// Trades with the port where the ship lies: unloads what it brought
    /// from elsewhere, or else takes the port's export on board.
    pub fn trade(&mut self, import: Color, export: Color) -> (t: Trade)
        ensures
            t == old(self)@.trade(import, export),
            final(self)@ == old(self)@.traded(export),
    {
        match self.try_unload() {
            Some(color) => {
                if color == import {
                    Trade::Delivered(color)
                } else {
                    Trade::Discarded(color)
                }
            },
            None => {
                self.try_load(export);
                Trade::Loading(export)
            },
        }
    }

    /// Returns true if the next waypoint is the final waypoint on the path.
    pub fn is_arriving(&self) -> (a: bool)
        requires
            self@.wf(),
        ensures
            a == self@.is_arriving(),
    {
        let i = position_on(&self.path, self.current_waypoint);
        if self.reverse {
            i < 2
        } else {
            self.path.len() < 2 || i >= self.path.len() - 2
        }
    }

    /// Returns true if the current waypoint is the first waypoint on the
    /// path, as the ship sails it.
    pub fn is_leaving(&self) -> (l: bool)
        requires
            self@.wf(),
        ensures
            l == self@.is_leaving(),
    {
        let i = position_on(&self.path, self.current_waypoint);
        if self.reverse {
            i == self.path.len() - 1
        } else {
            i == 0
        }
    }

    /// Lets `elapsed` milliseconds pass for a ship in dock. The time left in
    /// dock does not fall below zero.
    pub fn wait(&mut self, elapsed: u64)
        ensures
            final(self)@ == old(self)@.waited(elapsed as nat),
    {
        self.docked = if self.docked >= elapsed {
            self.docked - elapsed
        } else {
            0
        };
    }

    /// Moves the ship to the waypoint that it sailed towards.
    ///
    /// Where the path goes on from there, the ship sails on and the waypoint
    /// after is returned. Where it ends, the ship docks: it takes over
    /// `next_path` if that holds any waypoint, and turns round otherwise.
    pub fn arrive(&mut self, next_path: Option<Vec<Waypoint>>) -> (onward: Option<Waypoint>)
        requires
            old(self)@.wf(),
            old(self)@.can_arrive(
                path_view(next_path),
            ),
        ensures
            final(self)@ == old(self)@.arrived(
                path_view(next_path),
            ),
            final(self)@.wf(),
            final(self)@.next() is Some,
            onward == next_on(old(self)@.path, old(self)@.next()->0, old(self)@.reverse),
    {
        let ghost before = self@;
        let target = match self.next_waypoint() {
            Some(w) => w,
            None => {
                proof {
                    assert(false);
                }
                self.current_waypoint
            },
        };
        proof {
            lemma_first_index(self.path@, self.current_waypoint);
        }
        self.current_waypoint = target;
        let onward = self.next_waypoint();
        if onward.is_some() {
            return onward;
        }
        proof {
            lemma_first_index(self.path@, target);
        }
        match next_path {
            Some(path) => {
                if path.len() > 0 {
                    self.path = path;
                } else {
                    self.reverse = !self.reverse;
                }
            },
            None => {
                self.reverse = !self.reverse;
            },
        }
        self.docked = DOCK_TIME;
        None
    }

    /// Updates the ship by one tick of the simulation.
    ///
    /// A ship in dock waits: `elapsed` milliseconds of its time in dock pass.
    /// A ship under sail that has `reached` its next waypoint arrives there;
    /// `next_path` is the path that leads on from the end of its own, if the
    /// route has one. A ship under sail that has not reached it stays as it
    /// is.
    pub fn update(&mut self, elapsed: u64, reached: bool, next_path: Option<Vec<Waypoint>>)
        requires
            old(self)@.wf(),
            !old(self)@.is_docked() && reached ==> old(self)@.can_arrive(
                path_view(next_path),
            ),
        ensures
            final(self)@ == old(self)@.ticked(
                elapsed as nat,
                reached,
                path_view(next_path),
            ),
            final(self)@.wf(),
    {
        if self.is_docked() {
            self.wait(elapsed);
        } else if reached {
            let _ = self.arrive(next_path);
        }
    }
}

impl Ship {
    /// Tells whether the ship is on its path.
    pub fn is_on_path(&self) -> (ok: bool)
        ensures
            ok == self@.wf(),
    {
        lies_on(&self.path, self.current_waypoint)
    }

    /// Tells whether the ship can arrive at its next waypoint when
    /// `next_path` is what leads on from the end of its path.
    pub fn can_arrive(&self, next_path: &Option<Vec<Waypoint>>) -> (ok: bool)
        requires
            self@.wf(),
        ensures
            ok == self@.can_arrive(path_view(*next_path)),
    {
        match self.next_waypoint() {
            None => false,
            Some(target) => {
                proof {
                    lemma_first_index(self.path@, self.current_waypoint);
                }
                if following(&self.path, target, self.reverse).is_some() {
                    true
                } else {
                    match next_path {
                        Some(path) => {
                            if path.len() > 0 {
                                lies_on(path, target) && following(
                                    path,
                                    target,
                                    self.reverse,
                                ).is_some()
                            } else {
                                true
                            }
                        },
                        None => true,
                    }
                }
            },
        }
    }
}

/// A ship that reaches the end of its path, with no path to lead it on,
/// turns round once and docks; while it lies in dock no tick turns it
/// again or moves it; and when it sails again it makes for the waypoint
/// that it passed before it reached the end.
pub proof fn lemma_turns_once_at_the_end(ship: ShipView, elapsed: nat, reached: bool)
    requires
        ship.wf(),
        !ship.is_docked(),
        ship.next() is Some,
        next_on(ship.path, ship.next()->0, ship.reverse) is None,
    ensures
        ship.arrived(None).reverse == !ship.reverse,
        ship.arrived(None).is_docked(),
        ship.arrived(None).at == ship.next()->0,
        ship.arrived(None).ticked(elapsed, reached, None).reverse == !ship.reverse,
        ship.arrived(None).ticked(elapsed, reached, None).at == ship.next()->0,
        ship.path.no_duplicates() ==> ship.arrived(None).next() == Some(ship.at),
{
    lemma_first_index(ship.path, ship.at);
    let target = ship.next()->0;
    assert(ship.path.contains(target));
    lemma_first_index(ship.path, target);
    if ship.path.no_duplicates() {
        let i = first_index(ship.path, ship.at);
        let j = first_index(ship.path, target);
        if ship.reverse {
            assert(ship.path[i - 1] == target);
            assert(j == i - 1);
        } else {
            assert(ship.path[i + 1] == target);
            assert(j == i + 1);
        }
    }
}

/// A ship without cargo that loads a colour carries it; it does not part
/// with it where it was loaded; at any other waypoint it unloads that
/// colour and is empty again, so that a second attempt yields nothing.
pub proof fn lemma_cargo_round_trip(ship: ShipView, color: Color, elsewhere: Waypoint)
    requires
        ship.cargo is None,
        elsewhere != ship.at,
    ensures
        ship.loaded(color).cargo == Some((ship.at, color)),
        ship.loaded(color).unloads() is None,
        (ShipView { at: elsewhere, ..ship.loaded(color) }).unloads() == Some(color),
        (ShipView { at: elsewhere, ..ship.loaded(color) }).unloaded().cargo is None,
        (ShipView { at: elsewhere, ..ship.loaded(color) }).unloaded().unloads() is None,
{
}

} // verus!

pub use crate::shipbuilder::ShipBuilder;
pub use crate::shipyard::Shipyard;
