//! Trade routes: chains of ports with the path from each port to the next,
//! and the ships that sail them.

use vstd::prelude::*;
use crate::color::Color;
use crate::geometry::{adjacent, Position};
use crate::lookup::{
    first_index,
    last_index,
    lemma_first_index,
    lemma_first_index_is,
    lemma_last_index,
};
use crate::pathfinder::{connected, is_shortest, walk_cost, MAX_TILES};
use crate::port::Port;
use crate::ship::{lies_on, path_view, Ship, ShipView, Trade};
use crate::tile::Tile;
use crate::waypoint::{positions_of, to_waypoints};

verus! {

/// The state of a route.
pub struct RouteView {
    /// The ports of the route in order, each with the path that leads from
    /// it to the next. The last port has an empty path.
    pub paths: Seq<(Position, Seq<Waypoint>)>,
    /// The ships on the route, in the order in which they were added.
    pub ships: Seq<ShipView>,
}

/// The chain of ports that comes of linking `start` to `end`: `start` is put
/// in before its first place in the chain (at the front where it is not in
/// the chain), and the port after it becomes `end`.
pub open spec fn spliced(anchors: Seq<Position>, start: Position, end: Position) -> Seq<Position> {
    let at = splice_index(anchors, start);
    if anchors.len() == 0 {
        seq![start, end]
    } else {
        anchors.insert(at, start).update(at + 1, end)
    }
}

/// The place in a chain of ports where a link from `start` goes in.
pub open spec fn splice_index(anchors: Seq<Position>, start: Position) -> int {
    if anchors.contains(start) {
        first_index(anchors, start)
    } else {
        0
    }
}

/// Linking makes a chain one port longer; an empty chain gets both ports.
pub proof fn lemma_spliced_len(anchors: Seq<Position>, start: Position, end: Position)
    ensures
        0 <= splice_index(anchors, start) <= anchors.len(),
        anchors.len() > 0 ==> splice_index(anchors, start) < anchors.len(),
        spliced(anchors, start, end).len() == (if anchors.len() == 0 {
            2nat
        } else {
            anchors.len() + 1
        }),
        spliced(anchors, start, end)[splice_index(anchors, start)] == start,
        spliced(anchors, start, end)[splice_index(anchors, start) + 1] == end,
{
    if anchors.contains(start) {
        lemma_first_index(anchors, start);
    }
}

/// `walk` is a cheapest walk from `start` to `goal`.
pub open spec fn is_cheapest(
    map: Seq<Tile>,
    ports: Seq<Port>,
    waypoints: Seq<Waypoint>,
    walk: Seq<Position>,
    start: Position,
    goal: Position,
) -> bool {
    is_shortest(map, ports, waypoints, walk, start, goal, walk_cost(waypoints, walk))
}

impl RouteView {
    /// The ports of the route, in order.
    pub open spec fn anchors(self) -> Seq<Position> {
        self.paths.map_values(|link: (Position, Seq<Waypoint>)| link.0)
    }

    /// The paths of the route, in order.
    pub open spec fn segments(self) -> Seq<Seq<Waypoint>> {
        self.paths.map_values(|link: (Position, Seq<Waypoint>)| link.1)
    }

    /// All waypoints of the route: those of its first path, then those of
    /// its second, and so on.
    pub open spec fn waypoints(self) -> Seq<Waypoint> {
        self.segments().flatten()
    }

    /// Some path of the route holds `waypoint`.
    pub open spec fn contains(self, waypoint: Waypoint) -> bool {
        exists|i: int| 0 <= i < self.paths.len() && (#[trigger] self.paths[i]).1.contains(waypoint)
    }

    /// For each path of the route, whether it holds `waypoint`.
    pub open spec fn holders(self, waypoint: Waypoint) -> Seq<bool> {
        self.paths.map_values(|link: (Position, Seq<Waypoint>)| link.1.contains(waypoint))
    }

    /// Every path but the last starts at its own port and ends at the next
    /// port; the last path is empty.
    pub open spec fn chained(self) -> bool {
        &&& forall|i: int|
            0 <= i < self.paths.len() - 1 ==> (#[trigger] self.paths[i]).1.len() >= 1
                && self.paths[i].1.first() == Waypoint(self.paths[i].0) && self.paths[i].1.last()
                == Waypoint(self.paths[i + 1].0)
        &&& self.paths.len() > 0 ==> self.paths.last().1.len() == 0
    }

    /// The path that leaves `port`: that of the first place where the port
    /// stands in the chain. `None` where the port is not on the route, or
    /// no path leaves it.
    pub open spec fn next_path(self, port: Position) -> Option<Seq<Waypoint>> {
        if self.anchors().contains(port) && self.paths[first_index(self.anchors(), port)].1.len()
            > 0 {
            Some(self.paths[first_index(self.anchors(), port)].1)
        } else {
            None
        }
    }

    /// The path that leads to `port`: that of the place before the last
    /// where the port stands in the chain. `None` where the port is not on
    /// the route or is its first.
    pub open spec fn previous_path(self, port: Position) -> Option<Seq<Waypoint>> {
        if self.anchors().contains(port) && last_index(self.anchors(), port) >= 1 {
            Some(self.paths[last_index(self.anchors(), port) - 1].1)
        } else {
            None
        }
    }

    /// A link from `start` to `end` can be added: on the map, a walk leads
    /// from each port to the next, from where the link goes in to the end of
    /// the chain.
    pub open spec fn can_link(
        self,
        map: Seq<Tile>,
        ports: Seq<Port>,
        start: Position,
        end: Position,
    ) -> bool {
        let chain = spliced(self.anchors(), start, end);
        forall|i: int|
            splice_index(self.anchors(), start) <= i < chain.len() - 1 ==> connected(
                map,
                ports,
                #[trigger] chain[i],
                chain[i + 1],
            )
    }

    /// This route is what comes of adding a link from `start` to `end` to
    /// the route `before`: the chain of ports is spliced, the paths before
    /// the splice are kept, and each path from the splice on is a cheapest
    /// walk from its port to the next, given the `waypoints` in use.
    pub open spec fn links(
        self,
        before: RouteView,
        map: Seq<Tile>,
        ports: Seq<Port>,
        waypoints: Seq<Waypoint>,
        start: Position,
        end: Position,
    ) -> bool {
        let at = splice_index(before.anchors(), start);
        &&& self.ships == before.ships
        &&& self.anchors() == spliced(before.anchors(), start, end)
        &&& forall|i: int| 0 <= i < at ==> #[trigger] self.paths[i] == before.paths[i]
        &&& forall|i: int|
            at <= i < self.paths.len() - 1 ==> is_cheapest(
                map,
                ports,
                waypoints,
                positions_of((#[trigger] self.paths[i]).1),
                self.paths[i].0,
                self.paths[i + 1].0,
            )
        &&& self.paths.last().1 == (if before.paths.len() == 0 {
            Seq::<Waypoint>::empty()
        } else {
            before.paths.last().1
        })
    }
}

impl RouteView {
    /// The path that a ship of this route is handed when it is updated: as
    /// it nears the end of its path, the path that leads on from there.
    pub open spec fn upcoming(self, ship: ShipView) -> Option<Seq<Waypoint>> {
        match ship.next() {
            Some(target) => if !ship.is_arriving() {
                None
            } else if ship.reverse {
                self.previous_path(target.0)
            } else {
                self.next_path(target.0)
            },
            None => None,
        }
    }

    /// Ship `i` can be updated: it is on its path and has a waypoint to sail
    /// to, and can arrive there if it has `reached` it.
    pub open spec fn can_update_ship(self, i: int, reached: bool) -> bool {
        &&& self.ships[i].wf()
        &&& self.ships[i].next() is Some
        &&& !self.ships[i].is_docked() && reached ==> self.ships[i].can_arrive(
            self.upcoming(self.ships[i]),
        )
    }

    /// All ships of the route can be updated; `reached` holds, for each
    /// ship, whether it has reached its next waypoint.
    pub open spec fn can_update(self, reached: Seq<bool>) -> bool {
        &&& reached.len() == self.ships.len()
        &&& forall|i: int| 0 <= i < self.ships.len() ==> self.can_update_ship(i, #[trigger] reached[i])
    }

    /// The route after one tick of `elapsed` milliseconds.
    pub open spec fn updated(self, elapsed: nat, reached: Seq<bool>) -> RouteView {
        RouteView {
            paths: self.paths,
            ships: Seq::new(
                self.ships.len(),
                |i: int| self.ships[i].ticked(elapsed, reached[i], self.upcoming(self.ships[i])),
            ),
        }
    }
}

/// The positions of the given ports, in order.
pub open spec fn places_of(ports: Seq<Port>) -> Seq<Position> {
    ports.map_values(|port: Port| port.position)
}

/// The first of the given ports that lies at `position`.
pub open spec fn port_for(ports: Seq<Port>, position: Position) -> Port {
    ports[first_index(places_of(ports), position)]
}

/// What a ship does with its cargo in one tick, given the ports: a ship in
/// dock trades with the first port at its position, a ship under sail does
/// nothing.
pub open spec fn trade_of(ship: ShipView, ports: Seq<Port>) -> Option<Trade> {
    if ship.is_docked() {
        Some(ship.trade(port_for(ports, ship.at.0).import, port_for(ports, ship.at.0).export))
    } else {
        None
    }
}

/// A ship after it did with its cargo what `trade_of` describes.
pub open spec fn after_trade(ship: ShipView, ports: Seq<Port>) -> ShipView {
    if ship.is_docked() {
        ship.traded(port_for(ports, ship.at.0).export)
    } else {
        ship
    }
}

/// The colours delivered by the given trades, in order.
pub open spec fn deliveries(trades: Seq<Option<Trade>>) -> Seq<Color>
    decreases trades.len(),
{
    if trades.len() == 0 {
        Seq::empty()
    } else {
        match trades.last() {
            Some(Trade::Delivered(color)) => deliveries(trades.drop_last()).push(color),
            _ => deliveries(trades.drop_last()),
        }
    }
}

impl RouteView {
    /// Every ship in dock lies at one of the given ports.
    pub open spec fn docked_at_ports(self, ports: Seq<Port>) -> bool {
        forall|i: int|
            0 <= i < self.ships.len() && (#[trigger] self.ships[i]).is_docked() ==> places_of(
                ports,
            ).contains(self.ships[i].at.0)
    }

    /// The route after each ship in dock traded with its port.
    pub open spec fn traded(self, ports: Seq<Port>) -> RouteView {
        RouteView {
            paths: self.paths,
            ships: Seq::new(self.ships.len(), |i: int| after_trade(self.ships[i], ports)),
        }
    }

    /// What each ship of the route does with its cargo in one tick.
    pub open spec fn trades(self, ports: Seq<Port>) -> Seq<Option<Trade>> {
        Seq::new(self.ships.len(), |i: int| trade_of(self.ships[i], ports))
    }
}

/// Represents a trading route which exists between a series of ports.
#[derive(Debug, Clone)]
pub struct Route {
    ships: Vec<Ship>,
    paths: Vec<(Position, Vec<Waypoint>)>,
}

impl View for Route {
    type V = RouteView;

    closed spec fn view(&self) -> RouteView {
        RouteView {
            paths: Seq::new(self.paths@.len(), |i: int| (self.paths@[i].0, self.paths@[i].1@)),
            ships: Seq::new(self.ships@.len(), |i: int| self.ships@[i]@),
        }
    }
}

/// Returns a copy of `path`.
pub fn copy_path(path: &Vec<Waypoint>) -> (copy: Vec<Waypoint>)
    ensures
        copy@ == path@,
{
    let mut copy: Vec<Waypoint> = Vec::new();
    let mut k: usize = 0;
    while k < path.len()
        invariant
            k <= path@.len(),
            copy@ == path@.take(k as int),
        decreases path@.len() - k,
    {
        copy.push(path[k]);
        assert(path@.take(k + 1) =~= path@.take(k as int).push(path@[k as int]));
        k += 1;
    }
    assert(path@.take(path@.len() as int) =~= path@);
    copy
}

impl Route {
    /// Creates a new empty route.
    pub fn new() -> (route: Route)
        ensures
            route@.paths.len() == 0,
            route@.ships.len() == 0,
            route@.chained(),
    {
        Route { ships: Vec::new(), paths: Vec::new() }
    }

    /// Adds the given ship to this route.
    pub fn add_ship(&mut self, ship: Ship)
        ensures
            final(self)@.paths == old(self)@.paths,
            final(self)@.ships == old(self)@.ships.push(ship@),
    {
        self.ships.push(ship);
        assert(self@.paths =~= old(self)@.paths);
        assert(self@.ships =~= old(self)@.ships.push(ship@));
    }

    /// Takes all ships off this route and returns them.
    pub fn remove_ships(&mut self) -> (ships: Vec<Ship>)
        ensures
            final(self)@.paths == old(self)@.paths,
            final(self)@.ships.len() == 0,
            ships@.len() == old(self)@.ships.len(),
            forall|i: int| 0 <= i < ships@.len() ==> (#[trigger] ships@[i])@ == old(self)@.ships[i],
    {
        let mut ships: Vec<Ship> = Vec::new();
        ships.append(&mut self.ships);
        assert(self@.paths =~= old(self)@.paths);
        ships
    }

    /// Returns all port locations on this route in order.
    pub fn ports(&self) -> (ports: Vec<Position>)
        ensures
            ports@ == self@.anchors(),
    {
        let mut ports: Vec<Position> = Vec::new();
        let mut i: usize = 0;
        while i < self.paths.len()
            invariant
                i <= self.paths@.len(),
                ports@.len() == i,
                forall|k: int| 0 <= k < i ==> ports@[k] == self.paths@[k].0,
            decreases self.paths@.len() - i,
        {
            ports.push(self.paths[i].0);
            i += 1;
        }
        assert(ports@ =~= self@.anchors());
        ports
    }

    /// Returns the ports of this route in order, each with the path that
    /// leads from it to the next.
    pub fn legs(&self) -> (legs: &[(Position, Vec<Waypoint>)])
        ensures
            legs@.len() == self@.paths.len(),
            forall|i: int|
                0 <= i < legs@.len() ==> (#[trigger] legs@[i]).0 == self@.paths[i].0 && legs@[i].1@
                    == self@.paths[i].1,
    {
        self.paths.as_slice()
    }

    /// Returns all ships on this route.
    pub fn ships(&self) -> (ships: &[Ship])
        ensures
            ships@.len() == self@.ships.len(),
            forall|i: int| 0 <= i < ships@.len() ==> (#[trigger] ships@[i])@ == self@.ships[i],
    {
        self.ships.as_slice()
    }

    /// Returns the first path.
    pub fn initial_path(&self) -> (path: Vec<Waypoint>)
        requires
            self@.paths.len() > 0,
        ensures
            path@ == self@.paths[0].1,
    {
        copy_path(&self.paths[0].1)
    }

    /// Returns the first path of the route that holds the given waypoint.
    pub fn path(&self, waypoint: Waypoint) -> (path: Vec<Waypoint>)
        requires
            self@.contains(waypoint),
        ensures
            self@.holders(waypoint).contains(true),
            path@ == self@.paths[first_index(self@.holders(waypoint), true)].1,
            path@.contains(waypoint),
    {
        let ghost holders = self@.holders(waypoint);
        proof {
            let some = choose|i: int|
                0 <= i < self@.paths.len() && (#[trigger] self@.paths[i]).1.contains(waypoint);
            assert(holders[some]);
            lemma_first_index(holders, true);
        }
        let mut i: usize = 0;
        while i < self.paths.len()
            invariant
                holders == self@.holders(waypoint),
                i <= first_index(holders, true) < holders.len(),
                holders[first_index(holders, true)],
                forall|k: int| 0 <= k < first_index(holders, true) ==> !holders[k],
            decreases self.paths@.len() - i,
        {
            if lies_on(&self.paths[i].1, waypoint) {
                assert(holders[i as int]);
                return copy_path(&self.paths[i].1);
            }
            assert(!holders[i as int]);
            i += 1;
        }
        proof {
            assert(false);
        }
        Vec::new()
    }

    /// Finds the first place of `port` in the chain of ports.
    fn anchor_index(&self, port: Position) -> (found: Option<usize>)
        ensures
            match found {
                Some(i) => self@.anchors().contains(port) && i == first_index(
                    self@.anchors(),
                    port,
                ) && i < self.paths@.len(),
                None => !self@.anchors().contains(port),
            },
    {
        let ghost anchors = self@.anchors();
        let mut i: usize = 0;
        while i < self.paths.len()
            invariant
                anchors == self@.anchors(),
                i <= self.paths@.len(),
                forall|k: int| 0 <= k < i ==> anchors[k] != port,
            decreases self.paths@.len() - i,
        {
            if self.paths[i].0 == port {
                proof {
                    assert(anchors[i as int] == port);
                    lemma_first_index_is(anchors, port, i as int);
                }
                return Some(i);
            }
            i += 1;
        }
        None
    }

    /// Returns the path that leaves the given port, or `None` if the port is
    /// not on the route or is its last.
    pub fn next_path(&self, port: Position) -> (path: Option<Vec<Waypoint>>)
        ensures
            match path {
                Some(p) => self@.next_path(port) == Some(p@),
                None => self@.next_path(port) is None,
            },
    {
        match self.anchor_index(port) {
            Some(i) => {
                if self.paths[i].1.len() > 0 {
                    Some(copy_path(&self.paths[i].1))
                } else {
                    None
                }
            },
            None => None,
        }
    }

    /// Returns the path that leads to the given port, or `None` if the port
    /// is not on the route or is its first.
    pub fn previous_path(&self, port: Position) -> (path: Option<Vec<Waypoint>>)
        ensures
            match path {
                Some(p) => self@.previous_path(port) == Some(p@),
                None => self@.previous_path(port) is None,
            },
    {
        let ghost anchors = self@.anchors();
        let mut i: usize = self.paths.len();
        while i > 0
            invariant
                anchors == self@.anchors(),
                i <= self.paths@.len(),
                forall|k: int| i <= k < anchors.len() ==> anchors[k] != port,
            decreases i,
        {
            i -= 1;
            if self.paths[i].0 == port {
                proof {
                    assert(anchors[i as int] == port);
                    lemma_last_index(anchors, port);
                }
                if i >= 1 {
                    return Some(copy_path(&self.paths[i - 1].1));
                } else {
                    return None;
                }
            }
        }
        None
    }

    /// Returns all waypoints on this route, path by path.
    pub fn waypoints(&self) -> (waypoints: Vec<Waypoint>)
        ensures
            waypoints@ == self@.waypoints(),
    {
        let ghost segments = self@.segments();
        let mut waypoints: Vec<Waypoint> = Vec::new();
        let mut i: usize = 0;
        assert(segments.take(0) =~= Seq::<Seq<Waypoint>>::empty());
        while i < self.paths.len()
            invariant
                segments == self@.segments(),
                i <= self.paths@.len(),
                waypoints@ == segments.take(i as int).flatten(),
            decreases self.paths@.len() - i,
        {
            let segment = &self.paths[i].1;
            let ghost before = waypoints@;
            let mut k: usize = 0;
            while k < segment.len()
                invariant
                    k <= segment@.len(),
                    waypoints@ == before + segment@.take(k as int),
                decreases segment@.len() - k,
            {
                waypoints.push(segment[k]);
                assert(segment@.take(k + 1) =~= segment@.take(k as int).push(segment@[k as int]));
                k += 1;
            }
            proof {
                assert(segment@.take(segment@.len() as int) =~= segment@);
                assert(segments.take(i + 1) =~= segments.take(i as int).push(segments[i as int]));
                segments.take(i as int).lemma_flatten_push(segments[i as int]);
            }
            i += 1;
        }
        assert(segments.take(segments.len() as int) =~= segments);
        waypoints
    }

    /// Checks if the given waypoint is contained on this route.
    pub fn contains(&self, waypoint: Waypoint) -> (found: bool)
        ensures
            found == self@.contains(waypoint),
    {
        let mut i: usize = 0;
        while i < self.paths.len()
            invariant
                i <= self.paths@.len(),
                forall|k: int| 0 <= k < i ==> !(#[trigger] self@.paths[k]).1.contains(waypoint),
            decreases self.paths@.len() - i,
        {
            if lies_on(&self.paths[i].1, waypoint) {
                assert(self@.paths[i as int].1.contains(waypoint));
                return true;
            }
            i += 1;
        }
        false
    }
}

/// Adding a link keeps a route chained: if every path of the route led from
/// its port to the next before, every path does so after.
pub proof fn lemma_link_keeps_chain(
    after: RouteView,
    before: RouteView,
    map: Seq<Tile>,
    ports: Seq<Port>,
    waypoints: Seq<Waypoint>,
    start: Position,
    end: Position,
)
    requires
        after.links(before, map, ports, waypoints, start, end),
        before.chained(),
    ensures
        after.chained(),
{
    let at = splice_index(before.anchors(), start);
    let chain = spliced(before.anchors(), start, end);
    if before.anchors().contains(start) {
        lemma_first_index(before.anchors(), start);
    }
    assert(after.paths.len() == chain.len());
    assert forall|m: int| 0 <= m < after.paths.len() - 1 implies (#[trigger] after.paths[m]).1.len()
        >= 1 && after.paths[m].1.first() == Waypoint(after.paths[m].0) && after.paths[m].1.last()
        == Waypoint(after.paths[m + 1].0) by {
        assert(after.anchors()[m] == after.paths[m].0);
        assert(after.anchors()[m + 1] == after.paths[m + 1].0);
        if m < at {
            assert(after.paths[m] == before.paths[m]);
            assert(before.anchors()[m + 1] == before.paths[m + 1].0);
            assert(before.paths[m].1.last() == Waypoint(before.paths[m + 1].0));
            assert(chain[m + 1] == before.anchors()[m + 1]);
        } else {
            let walk = positions_of(after.paths[m].1);
            assert(is_cheapest(map, ports, waypoints, walk, after.paths[m].0, after.paths[m + 1].0));
            assert(walk[0] == after.paths[m].1[0].0);
            assert(walk.last() == after.paths[m].1.last().0);
        }
    }
}

impl Route {
    /// Puts `start` into the chain of ports, with `path`, and makes `end`
    /// the port after it. Returns the place where `start` went in.
    fn splice(&mut self, start: Position, end: Position, path: Vec<Waypoint>) -> (index: usize)
        ensures
            index == splice_index(old(self)@.anchors(), start),
            final(self)@.anchors() == spliced(old(self)@.anchors(), start, end),
            final(self)@.ships == old(self)@.ships,
            final(self)@.paths.len() == old(self)@.paths.len() + (if old(self)@.paths.len() == 0 {
                2int
            } else {
                1int
            }),
            index < final(self)@.paths.len() - 1,
            forall|m: int| 0 <= m < index ==> #[trigger] final(self)@.paths[m] == old(self)@.paths[m],
            final(self)@.paths.last().1 == (if old(self)@.paths.len() == 0 {
                Seq::<Waypoint>::empty()
            } else {
                old(self)@.paths.last().1
            }),
    {
        let ghost before = self@;
        let index: usize = match self.anchor_index(start) {
            Some(i) => i,
            None => 0,
        };
        self.paths.insert(index, (start, path));
        if self.paths.len() > index + 1 {
            let kept = copy_path(&self.paths[index + 1].1);
            self.paths.set(index + 1, (end, kept));
        } else {
            self.paths.push((end, Vec::new()));
        }
        proof {
            assert(self@.anchors() =~= spliced(before.anchors(), start, end));
            assert(self@.ships =~= before.ships);
        }
        index
    }

    /// Replaces the path that leaves the port at place `i` by a cheapest walk
    /// from that port to the next.
    fn relink(&mut self, map: &[Tile], ports: &[Port], waypoints: &[Waypoint], i: usize)
        requires
            map@.len() <= MAX_TILES,
            i + 1 < old(self)@.paths.len(),
            connected(map@, ports@, old(self)@.paths[i as int].0, old(self)@.paths[i + 1].0),
        ensures
            final(self)@.ships == old(self)@.ships,
            final(self)@.anchors() == old(self)@.anchors(),
            final(self)@.paths.len() == old(self)@.paths.len(),
            forall|m: int|
                0 <= m < final(self)@.paths.len() && m != i ==> #[trigger] final(self)@.paths[m]
                    == old(self)@.paths[m],
            is_cheapest(
                map@,
                ports@,
                waypoints@,
                positions_of(final(self)@.paths[i as int].1),
                old(self)@.paths[i as int].0,
                old(self)@.paths[i + 1].0,
            ),
    {
        let count = self.paths.len();
        assert(i + 1 < count);
        let from = self.paths[i].0;
        let to = self.paths[i + 1].0;
        match find_path(map, ports, waypoints, from, to) {
            Some((_, walk)) => {
                let segment = to_waypoints(&walk);
                proof {
                    assert(positions_of(segment@) =~= walk@);
                }
                self.paths.set(i, (from, segment));
            },
            None => {
                proof {
                    assert(false);
                }
            },
        }
        proof {
            assert(self@.anchors() =~= old(self)@.anchors());
            assert(self@.ships =~= old(self)@.ships);
        }
    }

    /// Adds a new link to this route, from `start` to `end`.
    ///
    /// `start` goes into the chain of ports before the first place where it
    /// stands already, or at the front where it does not; the port after it
    /// becomes `end`. Every path from there to the end of the chain is then
    /// found anew on the map, as a cheapest walk from its port to the next;
    /// `waypoints` are the waypoints in use, which such a walk avoids where
    /// it can. The `path` handed in is replaced like the others.
    ///
    /// The walks must exist: see `can_link`.
    pub fn add_link(
        &mut self,
        map: &[Tile],
        ports: &[Port],
        waypoints: &[Waypoint],
        start: Position,
        end: Position,
        path: Vec<Waypoint>,
    )
        requires
            map@.len() <= MAX_TILES,
            old(self)@.can_link(map@, ports@, start, end),
        ensures
            final(self)@.links(old(self)@, map@, ports@, waypoints@, start, end),
            old(self)@.chained() ==> final(self)@.chained(),
    {
        let ghost before = self@;
        let ghost chain = spliced(before.anchors(), start, end);
        let index = self.splice(start, end, path);
        let count = self.paths.len();
        let mut i: usize = index;
        while i < count - 1
            invariant
                index <= i <= count - 1,
                count == self@.paths.len(),
                map@.len() <= MAX_TILES,
                self@.anchors() == chain,
                self@.ships == before.ships,
                forall|m: int| 0 <= m < index ==> #[trigger] self@.paths[m] == before.paths[m],
                forall|m: int|
                    index <= m < i ==> is_cheapest(
                        map@,
                        ports@,
                        waypoints@,
                        positions_of((#[trigger] self@.paths[m]).1),
                        chain[m],
                        chain[m + 1],
                    ),
                self@.paths.last().1 == (if before.paths.len() == 0 {
                    Seq::<Waypoint>::empty()
                } else {
                    before.paths.last().1
                }),
                forall|m: int|
                    index <= m < chain.len() - 1 ==> connected(
                        map@,
                        ports@,
                        #[trigger] chain[m],
                        chain[m + 1],
                    ),
            decreases count - i,
        {
            let ghost earlier = self@;
            proof {
                assert(self@.anchors()[i as int] == self@.paths[i as int].0);
                assert(self@.anchors()[i + 1] == self@.paths[i + 1].0);
                assert(connected(map@, ports@, chain[i as int], chain[i + 1]));
            }
            self.relink(map, ports, waypoints, i);
            proof {
                assert forall|m: int| 0 <= m < index implies #[trigger] self@.paths[m]
                    == before.paths[m] by {
                    assert(self@.paths[m] == earlier.paths[m]);
                }
                assert forall|m: int| index <= m < i + 1 implies is_cheapest(
                    map@,
                    ports@,
                    waypoints@,
                    positions_of((#[trigger] self@.paths[m]).1),
                    chain[m],
                    chain[m + 1],
                ) by {
                    if m < i {
                        assert(self@.paths[m] == earlier.paths[m]);
                    }
                }
                assert(self@.paths[count - 1] == earlier.paths[count - 1]);
            }
            i += 1;
        }
        proof {
            assert forall|m: int| index <= m < self@.paths.len() - 1 implies is_cheapest(
                map@,
                ports@,
                waypoints@,
                positions_of((#[trigger] self@.paths[m]).1),
                self@.paths[m].0,
                self@.paths[m + 1].0,
            ) by {
                assert(self@.anchors()[m] == self@.paths[m].0);
                assert(self@.anchors()[m + 1] == self@.paths[m + 1].0);
            }
            if before.chained() {
                lemma_link_keeps_chain(self@, before, map@, ports@, waypoints@, start, end);
            }
        }
    }

    /// Tells whether a link from `start` to `end` can be added: whether the
    /// map holds the walks that `add_link` would look for.
    pub fn can_link(&self, map: &[Tile], ports: &[Port], start: Position, end: Position) -> (ok: bool)
        requires
            map@.len() <= MAX_TILES,
        ensures
            ok == self@.can_link(map@, ports@, start, end),
    {
        let ghost anchors = self@.anchors();
        let ghost chain = spliced(anchors, start, end);
        let unused: Vec<Waypoint> = Vec::new();
        if self.paths.len() == 0 {
            assert(chain =~= seq![start, end]);
            let found = find_path(map, ports, unused.as_slice(), start, end).is_some();
            proof {
                if found {
                    assert forall|i: int| 0 <= i < chain.len() - 1 implies connected(
                        map@,
                        ports@,
                        #[trigger] chain[i],
                        chain[i + 1],
                    ) by {}
                } else {
                    assert(!connected(map@, ports@, chain[0], chain[1]));
                }
            }
            return found;
        }
        let index: usize = match self.anchor_index(start) {
            Some(i) => i,
            None => 0,
        };
        // The chain from the splice on: `start`, `end`, and the ports that
        // followed the place of the splice.
        if !find_path(map, ports, unused.as_slice(), start, end).is_some() {
            assert(!connected(map@, ports@, chain[index as int], chain[index + 1]));
            return false;
        }
        let mut from = end;
        let mut i: usize = index + 1;
        while i < self.paths.len()
            invariant
                anchors == self@.anchors(),
                chain == spliced(anchors, start, end),
                anchors.len() > 0,
                index == splice_index(anchors, start),
                index < anchors.len(),
                index + 1 <= i <= anchors.len(),
                anchors.len() == self.paths@.len(),
                map@.len() <= MAX_TILES,
                from == chain[i as int],
                forall|m: int|
                    index <= m < i ==> connected(map@, ports@, #[trigger] chain[m], chain[m + 1]),
            decreases self.paths@.len() - i,
        {
            let to = self.paths[i].0;
            assert(chain[i + 1] == anchors[i as int]);
            if !find_path(map, ports, unused.as_slice(), from, to).is_some() {
                assert(!connected(map@, ports@, chain[i as int], chain[i + 1]));
                return false;
            }
            from = to;
            i += 1;
        }
        true
    }
}

impl Route {
    /// Returns all ships on this route for change. The ships stay as many
    /// as they are.
    pub fn ships_mut(&mut self) -> (ships: &mut [Ship])
        ensures
            ships@.len() == old(self)@.ships.len(),
            forall|i: int| 0 <= i < ships@.len() ==> (#[trigger] ships@[i])@ == old(self)@.ships[i],
            final(self)@.paths == old(self)@.paths,
            final(self)@.ships.len() == final(ships)@.len(),
            forall|i: int|
                0 <= i < final(ships)@.len() ==> (#[trigger] final(ships)@[i])@
                    == final(self)@.ships[i],
    {
        self.ships.as_mut_slice()
    }

    /// Returns the path to hand to `ship`, a ship of this route, at its next
    /// update: nothing while the ship is on its way; the path that leads on
    /// from the end of the ship's path once the ship sails for that end.
    pub fn upcoming_path(&self, ship: &Ship) -> (path: Option<Vec<Waypoint>>)
        requires
            ship@.wf(),
        ensures
            path_view(path) == self@.upcoming(ship@),
    {
        if ship.is_arriving() {
            match ship.next_waypoint() {
                Some(next) => {
                    if ship.reverse() {
                        self.previous_path(next.0)
                    } else {
                        self.next_path(next.0)
                    }
                },
                None => None,
            }
        } else {
            None
        }
    }

    /// Tells whether all ships of the route can be updated, given for each
    /// whether it has reached its next waypoint.
    pub fn can_update_ships(&self, reached: &[bool]) -> (ok: bool)
        ensures
            ok == self@.can_update(reached@),
    {
        if reached.len() != self.ships.len() {
            return false;
        }
        let mut i: usize = 0;
        while i < self.ships.len()
            invariant
                i <= self.ships@.len(),
                reached@.len() == self.ships@.len(),
                forall|k: int| 0 <= k < i ==> self@.can_update_ship(k, #[trigger] reached@[k]),
            decreases self.ships@.len() - i,
        {
            let ship = &self.ships[i];
            if !ship.is_on_path() {
                assert(!self@.can_update_ship(i as int, reached@[i as int]));
                return false;
            }
            if ship.next_waypoint().is_none() {
                assert(!self@.can_update_ship(i as int, reached@[i as int]));
                return false;
            }
            if !ship.is_docked() && reached[i] {
                let next_path = self.upcoming_path(ship);
                if !ship.can_arrive(&next_path) {
                    assert(!self@.can_update_ship(i as int, reached@[i as int]));
                    return false;
                }
            }
            assert(self@.can_update_ship(i as int, reached@[i as int]));
            i += 1;
        }
        true
    }

    /// Updates every ship of the route by one tick of `elapsed`
    /// milliseconds. `reached` holds, for each ship, whether it has covered
    /// the distance to its next waypoint. Each ship is handed the path that
    /// leads on from the end of its own, as the route has it.
    pub fn update_ships(&mut self, elapsed: u64, reached: &[bool])
        requires
            old(self)@.can_update(reached@),
        ensures
            final(self)@ == old(self)@.updated(elapsed as nat, reached@),
    {
        let ghost before = self@;
        let mut i: usize = 0;
        while i < self.ships.len()
            invariant
                i <= self.ships@.len(),
                reached@.len() == self.ships@.len(),
                self@.paths == before.paths,
                self@.ships.len() == before.ships.len(),
                before.can_update(reached@),
                forall|k: int|
                    0 <= k < i ==> #[trigger] self@.ships[k] == before.ships[k].ticked(
                        elapsed as nat,
                        reached@[k],
                        before.upcoming(before.ships[k]),
                    ),
                forall|k: int| i <= k < self@.ships.len() ==> #[trigger] self@.ships[k] == before.ships[k],
            decreases self.ships@.len() - i,
        {
            let ghost earlier = self@;
            assert(before.can_update_ship(i as int, reached@[i as int]));
            assert(self@.ships[i as int] == before.ships[i as int]);
            let next_path = self.upcoming_path(&self.ships[i]);
            assert(self@.upcoming(self@.ships[i as int]) == before.upcoming(before.ships[i as int]));
            self.ships[i].update(elapsed, reached[i], next_path);
            proof {
                assert(self@.paths =~= before.paths);
                assert forall|k: int| 0 <= k < i + 1 implies #[trigger] self@.ships[k]
                    == before.ships[k].ticked(
                    elapsed as nat,
                    reached@[k],
                    before.upcoming(before.ships[k]),
                ) by {
                    if k < i {
                        assert(self@.ships[k] == earlier.ships[k]);
                    }
                }
                assert forall|k: int| i + 1 <= k < self@.ships.len() implies #[trigger] self@.ships[k]
                    == before.ships[k] by {
                    assert(self@.ships[k] == earlier.ships[k]);
                }
            }
            i += 1;
        }
        assert(self@.ships =~= before.updated(elapsed as nat, reached@).ships);
    }
}

/// Finds the first of the given ports that lies at `position`.
pub fn find_port(ports: &[Port], position: Position) -> (found: Option<usize>)
    ensures
        match found {
            Some(i) => places_of(ports@).contains(position) && i == first_index(
                places_of(ports@),
                position,
            ) && i < ports@.len(),
            None => !places_of(ports@).contains(position),
        },
{
    let ghost places = places_of(ports@);
    let mut i: usize = 0;
    while i < ports.len()
        invariant
            i <= ports@.len(),
            places == places_of(ports@),
            forall|k: int| 0 <= k < i ==> places[k] != position,
        decreases ports@.len() - i,
    {
        if ports[i].position == position {
            proof {
                assert(places[i as int] == position);
                lemma_first_index_is(places, position, i as int);
            }
            return Some(i);
        }
        i += 1;
    }
    None
}

/// Returns the colours that the given trades delivered, in order.
pub fn delivered(trades: &[Option<Trade>]) -> (colors: Vec<Color>)
    ensures
        colors@ == deliveries(trades@),
{
    let mut colors: Vec<Color> = Vec::new();
    let mut i: usize = 0;
    assert(trades@.take(0) =~= Seq::<Option<Trade>>::empty());
    while i < trades.len()
        invariant
            i <= trades@.len(),
            colors@ == deliveries(trades@.take(i as int)),
        decreases trades@.len() - i,
    {
        assert(trades@.take(i + 1).drop_last() =~= trades@.take(i as int));
        assert(trades@.take(i + 1).last() == trades@[i as int]);
        match trades[i] {
            Some(Trade::Delivered(color)) => {
                colors.push(color);
            },
            _ => {},
        }
        i += 1;
    }
    assert(trades@.take(trades@.len() as int) =~= trades@);
    colors
}

impl Route {
    /// Tells whether every ship in dock lies at one of the given ports.
    pub fn docked_at_ports(&self, ports: &[Port]) -> (ok: bool)
        ensures
            ok == self@.docked_at_ports(ports@),
    {
        let mut i: usize = 0;
        while i < self.ships.len()
            invariant
                i <= self.ships@.len(),
                forall|k: int|
                    0 <= k < i && (#[trigger] self@.ships[k]).is_docked() ==> places_of(
                        ports@,
                    ).contains(self@.ships[k].at.0),
            decreases self.ships@.len() - i,
        {
            let ship = &self.ships[i];
            if ship.is_docked() && find_port(ports, ship.position().0).is_none() {
                assert(self@.ships[i as int].is_docked());
                return false;
            }
            i += 1;
        }
        true
    }

    /// Lets every ship in dock trade with the port where it lies: the ship
    /// unloads what it brought from elsewhere, or else takes the port's
    /// export on board. Returns, for each ship, what it did; `None` for a
    /// ship under sail.
    pub fn trade_docked(&mut self, ports: &[Port]) -> (trades: Vec<Option<Trade>>)
        requires
            old(self)@.docked_at_ports(ports@),
        ensures
            final(self)@ == old(self)@.traded(ports@),
            trades@ == old(self)@.trades(ports@),
    {
        let ghost before = self@;
        let mut trades: Vec<Option<Trade>> = Vec::new();
        let mut i: usize = 0;
        while i < self.ships.len()
            invariant
                i <= self.ships@.len(),
                self@.paths == before.paths,
                self@.ships.len() == before.ships.len(),
                before.docked_at_ports(ports@),
                trades@.len() == i,
                forall|k: int| 0 <= k < i ==> #[trigger] trades@[k] == trade_of(before.ships[k], ports@),
                forall|k: int|
                    0 <= k < i ==> #[trigger] self@.ships[k] == after_trade(before.ships[k], ports@),
                forall|k: int| i <= k < self@.ships.len() ==> #[trigger] self@.ships[k] == before.ships[k],
            decreases self.ships@.len() - i,
        {
            let ghost earlier = self@;
            assert(self@.ships[i as int] == before.ships[i as int]);
            if self.ships[i].is_docked() {
                assert(before.ships[i as int].is_docked());
                match find_port(ports, self.ships[i].position().0) {
                    Some(at) => {
                        let import = ports[at].import();
                        let export = ports[at].export();
                        let trade = self.ships[i].trade(import, export);
                        trades.push(Some(trade));
                    },
                    None => {
                        proof {
                            assert(false);
                        }
                    },
                }
            } else {
                trades.push(None);
            }
            proof {
                assert(self@.paths =~= before.paths);
                assert forall|k: int| 0 <= k < i + 1 implies #[trigger] self@.ships[k]
                    == after_trade(before.ships[k], ports@) by {
                    if k < i {
                        assert(self@.ships[k] == earlier.ships[k]);
                    }
                }
                assert forall|k: int| i + 1 <= k < self@.ships.len() implies #[trigger] self@.ships[k]
                    == before.ships[k] by {
                    assert(self@.ships[k] == earlier.ships[k]);
                }
            }
            i += 1;
        }
        proof {
            assert(self@.ships =~= before.traded(ports@).ships);
            assert(trades@ =~= before.trades(ports@));
        }
        trades
    }
}

/// In a chained route, the end of each path is next to the port that
/// follows: they are the same cell.
pub proof fn lemma_chain_adjacent(route: RouteView, i: int)
    requires
        route.chained(),
        0 <= i < route.paths.len() - 1,
    ensures
        route.paths[i].1.len() >= 1,
        adjacent(route.paths[i].1.last().0, route.paths[i + 1].0),
{
}

/// One link added to a route: the map, the ports and the waypoints in use
/// when it was added, and the two ports linked.
pub struct Link {
    pub map: Seq<Tile>,
    pub ports: Seq<Port>,
    pub waypoints: Seq<Waypoint>,
    pub start: Position,
    pub end: Position,
}

/// A route that starts empty and takes any number of links is chained
/// after each of them: the end of each of its paths is next to the port
/// that follows.
pub proof fn lemma_links_stay_chained(history: Seq<RouteView>, links: Seq<Link>)
    requires
        history.len() == links.len() + 1,
        history[0].paths.len() == 0,
        forall|k: int|
            0 <= k < links.len() ==> (#[trigger] history[k + 1]).links(
                history[k],
                links[k].map,
                links[k].ports,
                links[k].waypoints,
                links[k].start,
                links[k].end,
            ),
    ensures
        forall|k: int| 0 <= k < history.len() ==> (#[trigger] history[k]).chained(),
        forall|k: int, i: int|
            0 <= k < history.len() && 0 <= i < history[k].paths.len() - 1 ==> adjacent(
                (#[trigger] history[k].paths[i]).1.last().0,
                history[k].paths[i + 1].0,
            ),
    decreases links.len(),
{
    if links.len() == 0 {
        assert(history[0].chained());
    } else {
        let n = links.len() - 1;
        let earlier = history.drop_last();
        assert forall|k: int| 0 <= k < n implies (#[trigger] earlier[k + 1]).links(
            earlier[k],
            links.drop_last()[k].map,
            links.drop_last()[k].ports,
            links.drop_last()[k].waypoints,
            links.drop_last()[k].start,
            links.drop_last()[k].end,
        ) by {
            assert(history[k + 1].links(
                history[k],
                links[k].map,
                links[k].ports,
                links[k].waypoints,
                links[k].start,
                links[k].end,
            ));
        }
        lemma_links_stay_chained(earlier, links.drop_last());
        assert(earlier[n].chained());
        assert(history[n + 1].links(
            history[n],
            links[n].map,
            links[n].ports,
            links[n].waypoints,
            links[n].start,
            links[n].end,
        ));
        lemma_link_keeps_chain(
            history[n + 1],
            history[n],
            links[n].map,
            links[n].ports,
            links[n].waypoints,
            links[n].start,
            links[n].end,
        );
        assert forall|k: int| 0 <= k < history.len() implies (#[trigger] history[k]).chained() by {
            if k <= n {
                assert(earlier[k].chained());
            }
        }
    }
}

} // verus!

pub use crate::pathfinder::{find_path, reachable};
pub use crate::routebuilder::RouteBuilder;
pub use crate::shape::{RouteShape, ShapeSelector};
pub use crate::waypoint::Waypoint;
