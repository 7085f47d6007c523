//! The game world: the map, the ports, the routes and the shipyard.

use vstd::prelude::*;
use rand::rngs::StdRng;
use crate::geometry::Position;
use crate::lookup::{first_index, lemma_first_index, lemma_first_index_is};
use crate::pathfinder::{
    can_step,
    connected,
    find_path,
    is_shortest,
    reachable,
    reachable_cells,
    MAX_TILES,
};
use crate::port::Port;
use crate::random::shuffle;
use crate::route::{Route, RouteView};
use crate::shape::RouteShape;
use crate::ship::{Ship, ShipView};
use crate::shipyard::{Shipyard, FLEET_SIZE};
use crate::tile::Tile;
use crate::waypoint::Waypoint;

verus! {

/// The state of a world.
pub struct WorldView {
    /// The tiles of the map.
    pub map: Seq<Tile>,
    /// The ports that routes can call at.
    pub open_ports: Seq<Port>,
    /// The ports that are not yet open.
    pub closed_ports: Seq<Port>,
    /// The routes, each under its shape.
    pub routes: Seq<(RouteShape, RouteView)>,
    /// The number of ships in the shipyard.
    pub shipyard: nat,
}

/// The shapes of the given routes, in order.
pub open spec fn shapes_of(routes: Seq<(RouteShape, RouteView)>) -> Seq<RouteShape> {
    routes.map_values(|entry: (RouteShape, RouteView)| entry.0)
}

/// The test for a route that does not pass `waypoint`.
pub open spec fn avoids(waypoint: Waypoint) -> spec_fn((RouteShape, RouteView)) -> bool {
    |entry: (RouteShape, RouteView)| !entry.1.contains(waypoint)
}

impl WorldView {
    /// The shapes of the routes, in the order of the routes.
    pub open spec fn shapes(self) -> Seq<RouteShape> {
        shapes_of(self.routes)
    }

    /// The route of the given shape, if there is one.
    pub open spec fn route_of(self, shape: RouteShape) -> Option<RouteView> {
        if self.shapes().contains(shape) {
            Some(self.routes[first_index(self.shapes(), shape)].1)
        } else {
            None
        }
    }

    /// The positions of the open ports, in order.
    pub open spec fn port_positions(self) -> Seq<Position> {
        self.open_ports.map_values(|port: Port| port.position)
    }

    /// The waypoints of all routes: those of the first route, then those of
    /// the second, and so on.
    pub open spec fn waypoints(self) -> Seq<Waypoint> {
        self.routes.map_values(|entry: (RouteShape, RouteView)| entry.1.waypoints()).flatten()
    }

    /// The map is small enough to search, no two routes have the same
    /// shape, and every route has a port.
    pub open spec fn wf(self) -> bool {
        &&& self.map.len() <= MAX_TILES
        &&& self.shapes().no_duplicates()
        &&& forall|i: int| 0 <= i < self.routes.len() ==> (#[trigger] self.routes[i]).1.paths.len() > 0
    }

    /// Every route is chained: each of its paths leads from its port to the
    /// next.
    pub open spec fn chained(self) -> bool {
        forall|i: int| 0 <= i < self.routes.len() ==> (#[trigger] self.routes[i]).1.chained()
    }

    /// Where a route of the given shape may start: at the last port of the
    /// route of that shape, or at any open port if there is no such route.
    pub open spec fn allowed_starts(self, shape: RouteShape) -> Seq<Position> {
        match self.route_of(shape) {
            Some(route) => seq![route.anchors().last()],
            None => self.port_positions(),
        }
    }

    /// The test that `allowed_ends` applies to the position of each open
    /// port.
    pub open spec fn may_end(self, start: Position, shape: RouteShape) -> spec_fn(Position) -> bool {
        match self.route_of(shape) {
            Some(route) => |position: Position| !route.anchors().contains(position),
            None => |position: Position| position != start,
        }
    }

    /// Where a route of the given shape that starts at `start` may end: at
    /// any open port that the route of that shape does not call at yet, or,
    /// if there is no such route, at any open port but `start`.
    pub open spec fn allowed_ends(self, start: Position, shape: RouteShape) -> Seq<Position> {
        self.port_positions().filter(self.may_end(start, shape))
    }

    /// The first tile at `position`, if the map has one.
    pub open spec fn tile(self, position: Position) -> Option<Tile> {
        let positions = self.map.map_values(|tile: Tile| tile.position);
        if positions.contains(position) {
            Some(self.map[first_index(positions, position)])
        } else {
            None
        }
    }

    /// The first open port at `position`, if there is one.
    pub open spec fn port(self, position: Position) -> Option<Port> {
        if self.port_positions().contains(position) {
            Some(self.open_ports[first_index(self.port_positions(), position)])
        } else {
            None
        }
    }
}

impl WorldView {
    /// The route of the given shape, or an empty route if there is none.
    pub open spec fn route_or_new(self, shape: RouteShape) -> RouteView {
        match self.route_of(shape) {
            Some(route) => route,
            None => RouteView { paths: Seq::empty(), ships: Seq::empty() },
        }
    }

    /// A link from `start` to `goal` can be added to the route of the given
    /// shape: the map holds the walks that the route then needs.
    pub open spec fn can_add_route(self, shape: RouteShape, start: Position, goal: Position) -> bool {
        self.route_or_new(shape).can_link(self.map, self.open_ports, start, goal)
    }

    /// This world is what comes of adding a link from `start` to `goal` to
    /// the route of the given shape in the world `before`: that route, new
    /// if there was none, has the link; the waypoints that its paths avoid
    /// are those of all routes of `before`; everything else is as it was.
    pub open spec fn adds_route(
        self,
        before: WorldView,
        shape: RouteShape,
        start: Position,
        goal: Position,
    ) -> bool {
        &&& self.map == before.map
        &&& self.open_ports == before.open_ports
        &&& self.closed_ports == before.closed_ports
        &&& self.shipyard == before.shipyard
        &&& self.shapes() == (if before.shapes().contains(shape) {
            before.shapes()
        } else {
            before.shapes().push(shape)
        })
        &&& forall|i: int|
            0 <= i < before.routes.len() && (#[trigger] before.routes[i]).0 != shape
                ==> self.routes[i] == before.routes[i]
        &&& self.route_of(shape) is Some
        &&& self.route_of(shape)->0.links(
            before.route_or_new(shape),
            before.map,
            before.open_ports,
            before.waypoints(),
            start,
            goal,
        )
    }

    /// The routes that stay when all routes through `waypoint` are removed.
    pub open spec fn kept(routes: Seq<(RouteShape, RouteView)>, waypoint: Waypoint) -> Seq<
        (RouteShape, RouteView),
    > {
        routes.filter(avoids(waypoint))
    }

    /// The ships of the routes through `waypoint`, route by route.
    pub open spec fn evicted(routes: Seq<(RouteShape, RouteView)>, waypoint: Waypoint) -> Seq<
        ShipView,
    >
        decreases routes.len(),
    {
        if routes.len() == 0 {
            Seq::empty()
        } else if routes.last().1.contains(waypoint) {
            Self::evicted(routes.drop_last(), waypoint) + routes.last().1.ships
        } else {
            Self::evicted(routes.drop_last(), waypoint)
        }
    }

    /// The number of ships on the given routes.
    pub open spec fn placed(routes: Seq<(RouteShape, RouteView)>) -> nat
        decreases routes.len(),
    {
        if routes.len() == 0 {
            0
        } else {
            Self::placed(routes.drop_last()) + routes.last().1.ships.len()
        }
    }

    /// The number of ships of this world: those in the shipyard and those
    /// on routes.
    pub open spec fn fleet(self) -> nat {
        self.shipyard + Self::placed(self.routes)
    }

    /// For each route, whether it passes `waypoint`.
    pub open spec fn passing(self, waypoint: Waypoint) -> Seq<bool> {
        self.routes.map_values(|entry: (RouteShape, RouteView)| entry.1.contains(waypoint))
    }
}

impl WorldView {
    /// Some route passes `waypoint`.
    pub open spec fn hosts(self, waypoint: Waypoint) -> bool {
        self.passing(waypoint).contains(true)
    }

    /// The place of the first route that passes `waypoint`.
    pub open spec fn host(self, waypoint: Waypoint) -> int {
        first_index(self.passing(waypoint), true)
    }

    /// The ship that is placed at `waypoint`: it sails the first path of
    /// its route that holds the waypoint, front to back, from there.
    pub open spec fn new_ship(self, waypoint: Waypoint) -> ShipView {
        let route = self.routes[self.host(waypoint)].1;
        ShipView {
            docked: 0,
            at: waypoint,
            path: route.paths[first_index(route.holders(waypoint), true)].1,
            reverse: false,
            cargo: None,
        }
    }

    /// This world with a new ship at `waypoint`, on the first route that
    /// passes it.
    pub open spec fn with_ship(self, waypoint: Waypoint) -> WorldView {
        let at = self.host(waypoint);
        let route = self.routes[at].1;
        WorldView {
            routes: self.routes.update(
                at,
                (
                    self.routes[at].0,
                    RouteView { ships: route.ships.push(self.new_ship(waypoint)), ..route },
                ),
            ),
            ..self
        }
    }
}

/// Holds all information on the game world.
#[derive(Debug, Clone)]
pub struct World {
    map: Vec<Tile>,
    open_ports: Vec<Port>,
    closed_ports: Vec<Port>,
    routes: Vec<(RouteShape, Route)>,
    shipyard: Shipyard,
}

impl View for World {
    type V = WorldView;

    closed spec fn view(&self) -> WorldView {
        WorldView {
            map: self.map@,
            open_ports: self.open_ports@,
            closed_ports: self.closed_ports@,
            routes: Seq::new(self.routes@.len(), |i: int| (self.routes@[i].0, self.routes@[i].1@)),
            shipyard: self.shipyard@,
        }
    }
}

impl World {
    /// Creates a new world without routes and with a full shipyard.
    pub fn new(tiles: Vec<Tile>, open_ports: Vec<Port>, closed_ports: Vec<Port>) -> (world: World)
        ensures
            world@ == (WorldView {
                map: tiles@,
                open_ports: open_ports@,
                closed_ports: closed_ports@,
                routes: Seq::empty(),
                shipyard: FLEET_SIZE as nat,
            }),
    {
        let world = World {
            map: tiles,
            open_ports,
            closed_ports,
            routes: Vec::new(),
            shipyard: Shipyard::new(),
        };
        assert(world@.routes =~= Seq::empty());
        world
    }

    /// Returns all map tiles.
    pub fn tiles(&self) -> (tiles: &[Tile])
        ensures
            tiles@ == self@.map,
    {
        self.map.as_slice()
    }

    /// Returns all open ports.
    pub fn ports(&self) -> (ports: &[Port])
        ensures
            ports@ == self@.open_ports,
    {
        self.open_ports.as_slice()
    }

    /// Returns all open ports for change. The ports stay as many as they
    /// are.
    pub fn ports_mut(&mut self) -> (ports: &mut [Port])
        ensures
            ports@ == old(self)@.open_ports,
            final(self)@ == (WorldView { open_ports: final(ports)@, ..old(self)@ }),
    {
        self.open_ports.as_mut_slice()
    }

    /// Returns all routes, each with its shape.
    pub fn routes(&self) -> (routes: &[(RouteShape, Route)])
        ensures
            routes@.len() == self@.routes.len(),
            forall|i: int|
                0 <= i < routes@.len() ==> (#[trigger] routes@[i]).0 == self@.routes[i].0
                    && routes@[i].1@ == self@.routes[i].1,
    {
        self.routes.as_slice()
    }

    /// Returns all routes for change. The routes stay as many as they are.
    pub fn routes_mut(&mut self) -> (routes: &mut [(RouteShape, Route)])
        ensures
            routes@.len() == old(self)@.routes.len(),
            forall|i: int|
                0 <= i < routes@.len() ==> (#[trigger] routes@[i]).0 == old(self)@.routes[i].0
                    && routes@[i].1@ == old(self)@.routes[i].1,
            final(self)@.map == old(self)@.map,
            final(self)@.open_ports == old(self)@.open_ports,
            final(self)@.closed_ports == old(self)@.closed_ports,
            final(self)@.shipyard == old(self)@.shipyard,
            final(self)@.routes.len() == final(routes)@.len(),
            forall|i: int|
                0 <= i < final(routes)@.len() ==> (#[trigger] final(routes)@[i]).0
                    == final(self)@.routes[i].0 && final(routes)@[i].1@ == final(self)@.routes[i].1,
    {
        self.routes.as_mut_slice()
    }

    /// Returns the shipyard.
    pub fn shipyard(&self) -> (yard: &Shipyard)
        ensures
            yard@ == self@.shipyard,
    {
        &self.shipyard
    }

    /// Returns a mutable reference to the shipyard.
    pub fn shipyard_mut(&mut self) -> (yard: &mut Shipyard)
        ensures
            yard@ == old(self)@.shipyard,
            final(self)@ == (WorldView { shipyard: final(yard)@, ..old(self)@ }),
    {
        &mut self.shipyard
    }

    /// Finds the place of the route of the given shape.
    fn route_index(&self, shape: RouteShape) -> (found: Option<usize>)
        ensures
            match found {
                Some(i) => self@.shapes().contains(shape) && i == first_index(
                    self@.shapes(),
                    shape,
                ) && i < self.routes@.len(),
                None => !self@.shapes().contains(shape),
            },
    {
        let ghost shapes = self@.shapes();
        let mut i: usize = 0;
        while i < self.routes.len()
            invariant
                shapes == self@.shapes(),
                i <= self.routes@.len(),
                forall|k: int| 0 <= k < i ==> shapes[k] != shape,
            decreases self.routes@.len() - i,
        {
            if self.routes[i].0 == shape {
                proof {
                    assert(shapes[i as int] == shape);
                    lemma_first_index_is(shapes, shape, i as int);
                }
                return Some(i);
            }
            i += 1;
        }
        None
    }

    /// Returns the positions of all open ports.
    fn port_positions(&self) -> (positions: Vec<Position>)
        ensures
            positions@ == self@.port_positions(),
    {
        let mut positions: Vec<Position> = Vec::new();
        let mut i: usize = 0;
        while i < self.open_ports.len()
            invariant
                i <= self.open_ports@.len(),
                positions@.len() == i,
                forall|k: int| 0 <= k < i ==> positions@[k] == self.open_ports@[k].position,
            decreases self.open_ports@.len() - i,
        {
            positions.push(self.open_ports[i].position);
            i += 1;
        }
        assert(positions@ =~= self@.port_positions());
        positions
    }

    /// Returns all the current valid start points for drawing or extending
    /// the route of the given shape.
    pub fn allowed_starts(&self, shape: RouteShape) -> (starts: Vec<Position>)
        requires
            self@.wf(),
        ensures
            starts@ == self@.allowed_starts(shape),
    {
        match self.route_index(shape) {
            Some(i) => {
                let anchors = self.routes[i].1.ports();
                assert(self@.routes[i as int].1.paths.len() > 0);
                let mut starts: Vec<Position> = Vec::new();
                starts.push(anchors[anchors.len() - 1]);
                assert(starts@ =~= self@.allowed_starts(shape));
                starts
            },
            None => self.port_positions(),
        }
    }

    /// Returns all the current valid end points for drawing or extending the
    /// route of the given shape from `start`.
    pub fn allowed_ends(&self, start: Position, shape: RouteShape) -> (ends: Vec<Position>)
        ensures
            ends@ == self@.allowed_ends(start, shape),
    {
        let positions = self.port_positions();
        let found = self.route_index(shape);
        let anchors: Vec<Position> = match found {
            Some(i) => self.routes[i].1.ports(),
            None => Vec::new(),
        };
        let ghost test = self@.may_end(start, shape);
        let mut ends: Vec<Position> = Vec::new();
        let mut k: usize = 0;
        assert(positions@.take(0).filter(test) =~= Seq::<Position>::empty()) by {
            reveal(Seq::filter);
        }
        while k < positions.len()
            invariant
                k <= positions@.len(),
                test == self@.may_end(start, shape),
                ends@ == positions@.take(k as int).filter(test),
                match found {
                    Some(i) => self@.route_of(shape) == Some(self@.routes[i as int].1) && i
                        < self@.routes.len() && anchors@ == self@.routes[i as int].1.anchors(),
                    None => self@.route_of(shape) is None,
                },
            decreases positions@.len() - k,
        {
            let position = positions[k];
            let keep = match found {
                Some(_) => !holds(&anchors, position),
                None => position != start,
            };
            proof {
                assert(keep == test(position));
                assert(positions@.take(k + 1) =~= positions@.take(k as int).push(position));
                positions@.take(k as int).lemma_filter_push(position, test);
            }
            if keep {
                ends.push(position);
            }
            k += 1;
        }
        assert(positions@.take(positions@.len() as int) =~= positions@);
        ends
    }

    /// Returns the tile at the given position.
    pub fn tile(&self, position: Position) -> (tile: Option<&Tile>)
        ensures
            match tile {
                Some(t) => self@.tile(position) == Some(*t),
                None => self@.tile(position) is None,
            },
    {
        let ghost positions = self@.map.map_values(|tile: Tile| tile.position);
        let mut i: usize = 0;
        while i < self.map.len()
            invariant
                i <= self.map@.len(),
                positions == self@.map.map_values(|tile: Tile| tile.position),
                forall|k: int| 0 <= k < i ==> positions[k] != position,
            decreases self.map@.len() - i,
        {
            if self.map[i].position == position {
                proof {
                    assert(positions[i as int] == position);
                    lemma_first_index_is(positions, position, i as int);
                }
                return Some(&self.map[i]);
            }
            i += 1;
        }
        None
    }

    /// Returns the open port at the given position.
    pub fn port(&self, position: Position) -> (port: Option<&Port>)
        ensures
            match port {
                Some(p) => self@.port(position) == Some(*p),
                None => self@.port(position) is None,
            },
    {
        let ghost positions = self@.port_positions();
        let mut i: usize = 0;
        while i < self.open_ports.len()
            invariant
                i <= self.open_ports@.len(),
                positions == self@.port_positions(),
                forall|k: int| 0 <= k < i ==> positions[k] != position,
            decreases self.open_ports@.len() - i,
        {
            if self.open_ports[i].position == position {
                proof {
                    assert(positions[i as int] == position);
                    lemma_first_index_is(positions, position, i as int);
                }
                return Some(&self.open_ports[i]);
            }
            i += 1;
        }
        None
    }

    /// Returns all cells that a trade route can step into from the given
    /// position.
    pub fn reachable(&self, position: Position) -> (cells: Vec<Position>)
        ensures
            cells@ == reachable_cells(self@.map, self@.open_ports, position),
            forall|to: Position|
                cells@.contains(to) <==> can_step(self@.map, self@.open_ports, position, to),
    {
        reachable(self.map.as_slice(), self.open_ports.as_slice(), position)
    }

    /// Returns the waypoints of all routes.
    pub fn waypoints(&self) -> (waypoints: Vec<Waypoint>)
        ensures
            waypoints@ == self@.waypoints(),
    {
        let ghost parts = self@.routes.map_values(
            |entry: (RouteShape, RouteView)| entry.1.waypoints(),
        );
        let mut waypoints: Vec<Waypoint> = Vec::new();
        let mut i: usize = 0;
        assert(parts.take(0) =~= Seq::<Seq<Waypoint>>::empty());
        while i < self.routes.len()
            invariant
                parts == self@.routes.map_values(
                    |entry: (RouteShape, RouteView)| entry.1.waypoints(),
                ),
                i <= self.routes@.len(),
                waypoints@ == parts.take(i as int).flatten(),
            decreases self.routes@.len() - i,
        {
            let mut part = self.routes[i].1.waypoints();
            proof {
                assert(part@ == parts[i as int]);
                assert(parts.take(i + 1) =~= parts.take(i as int).push(parts[i as int]));
                parts.take(i as int).lemma_flatten_push(parts[i as int]);
            }
            waypoints.append(&mut part);
            i += 1;
        }
        assert(parts.take(parts.len() as int) =~= parts);
        waypoints
    }

    /// Finds a cheapest walk from `start` to `goal` that a new route could
    /// take, given the routes that exist: its cost and its cells, or `None`
    /// if there is no walk from the one to the other.
    pub fn route(&self, start: Position, goal: Position) -> (found: Option<(i32, Vec<Position>)>)
        requires
            self@.map.len() <= MAX_TILES,
        ensures
            match found {
                Some((cost, walk)) => is_shortest(
                    self@.map,
                    self@.open_ports,
                    self@.waypoints(),
                    walk@,
                    start,
                    goal,
                    cost as int,
                ),
                None => !connected(self@.map, self@.open_ports, start, goal),
            },
    {
        let waypoints = self.waypoints();
        find_path(
            self.map.as_slice(),
            self.open_ports.as_slice(),
            waypoints.as_slice(),
            start,
            goal,
        )
    }
}

/// Tells whether `positions` holds `position`.
fn holds(positions: &Vec<Position>, position: Position) -> (found: bool)
    ensures
        found == positions@.contains(position),
{
    let mut k: usize = 0;
    while k < positions.len()
        invariant
            k <= positions@.len(),
            forall|m: int| 0 <= m < k ==> positions@[m] != position,
        decreases positions@.len() - k,
    {
        if positions[k] == position {
            return true;
        }
        k += 1;
    }
    false
}

impl Default for World {
    /// Creates a world without tiles, ports or routes.
    fn default() -> (world: World)
        ensures
            world@ == (WorldView {
                map: Seq::empty(),
                open_ports: Seq::empty(),
                closed_ports: Seq::empty(),
                routes: Seq::empty(),
                shipyard: FLEET_SIZE as nat,
            }),
    {
        World::new(Vec::new(), Vec::new(), Vec::new())
    }
}

/// The views of the given ships, in order.
pub open spec fn ship_views(ships: Seq<Ship>) -> Seq<ShipView> {
    ships.map_values(|ship: Ship| ship@)
}

/// Removing the routes through a waypoint loses no ship: the ships on the
/// routes that stay and the ships that were taken off make up the ships
/// that were placed.
pub proof fn lemma_removal_keeps_ships(routes: Seq<(RouteShape, RouteView)>, waypoint: Waypoint)
    ensures
        WorldView::placed(WorldView::kept(routes, waypoint)) + WorldView::evicted(
            routes,
            waypoint,
        ).len() == WorldView::placed(routes),
    decreases routes.len(),
{
    let test = avoids(waypoint);
    if routes.len() == 0 {
        assert(routes.filter(test) =~= Seq::empty()) by {
            reveal(Seq::filter);
        }
    } else {
        lemma_removal_keeps_ships(routes.drop_last(), waypoint);
        assert(routes.drop_last().push(routes.last()) =~= routes);
        routes.drop_last().lemma_filter_push(routes.last(), test);
        if !routes.last().1.contains(waypoint) {
            let fewer = routes.drop_last().filter(test);
            assert(fewer.push(routes.last()).drop_last() =~= fewer);
        }
    }
}

impl World {
    /// Tells whether a link from `start` to `goal` can be added to the route
    /// of the given shape: whether the map holds the walks that `add_route`
    /// would look for.
    pub fn can_add_route(&self, shape: RouteShape, start: Position, goal: Position) -> (ok: bool)
        requires
            self@.map.len() <= MAX_TILES,
        ensures
            ok == self@.can_add_route(shape, start, goal),
    {
        match self.route_index(shape) {
            Some(i) => self.routes[i].1.can_link(
                self.map.as_slice(),
                self.open_ports.as_slice(),
                start,
                goal,
            ),
            None => {
                let fresh = Route::new();
                assert(fresh@.paths =~= Seq::empty());
                assert(fresh@.ships =~= Seq::empty());
                fresh.can_link(self.map.as_slice(), self.open_ports.as_slice(), start, goal)
            },
        }
    }

    /// Creates the route of the given shape if there is none, and adds a
    /// new link between `start` and `goal` to it. The paths of the route are
    /// found on the map and avoid, where they can, the waypoints of the
    /// routes that exist.
    pub fn add_route(
        &mut self,
        shape: RouteShape,
        start: Position,
        goal: Position,
        path: Vec<Waypoint>,
    )
        requires
            old(self)@.wf(),
            old(self)@.can_add_route(shape, start, goal),
        ensures
            final(self)@.adds_route(old(self)@, shape, start, goal),
            final(self)@.wf(),
            old(self)@.chained() ==> final(self)@.chained(),
    {
        let ghost before = self@;
        let waypoints = self.waypoints();
        let index: usize = match self.route_index(shape) {
            Some(i) => i,
            None => {
                let fresh = Route::new();
                assert(fresh@.paths =~= Seq::empty());
                assert(fresh@.ships =~= Seq::empty());
                self.routes.push((shape, fresh));
                self.routes.len() - 1
            },
        };
        let ghost middle = self@;
        proof {
            assert(middle.shapes() =~= (if before.shapes().contains(shape) {
                before.shapes()
            } else {
                before.shapes().push(shape)
            }));
            assert(middle.routes[index as int].1 == before.route_or_new(shape));
            assert(middle.shapes()[index as int] == shape);
        }
        self.routes[index].1.add_link(
            self.map.as_slice(),
            self.open_ports.as_slice(),
            waypoints.as_slice(),
            start,
            goal,
            path,
        );
        proof {
            assert(self@.shapes() =~= middle.shapes());
            assert(self@.routes[index as int].1.links(
                before.route_or_new(shape),
                before.map,
                before.open_ports,
                before.waypoints(),
                start,
                goal,
            ));
            assert(self@.shapes()[index as int] == shape);
            if before.shapes().contains(shape) {
                lemma_first_index(before.shapes(), shape);
            }
            assert forall|i: int| 0 <= i < self@.shapes().len() && i != index implies self@.shapes()[i]
                != shape by {
                if before.shapes().contains(shape) {
                    assert(before.shapes()[i] != before.shapes()[index as int]);
                } else {
                    assert(before.shapes()[i] != shape);
                }
            }
            lemma_first_index_is(self@.shapes(), shape, index as int);
            assert forall|i: int|
                0 <= i < before.routes.len() && (#[trigger] before.routes[i]).0
                    != shape implies self@.routes[i] == before.routes[i] by {
                assert(before.shapes()[i] == before.routes[i].0);
                assert(middle.routes[i] == before.routes[i]);
            }
            if before.chained() {
                assert forall|i: int| 0 <= i < self@.routes.len() implies (
                #[trigger] self@.routes[i]).1.chained() by {
                    if i != index {
                        assert(self@.routes[i] == middle.routes[i]);
                        assert(middle.routes[i] == before.routes[i]);
                    } else {
                        assert(middle.routes[i].1.chained());
                    }
                }
            }
            assert forall|i: int| 0 <= i < self@.routes.len() implies (
            #[trigger] self@.routes[i]).1.paths.len() > 0 by {
                if i != index {
                    assert(self@.routes[i] == middle.routes[i]);
                    assert(middle.routes[i] == before.routes[i]);
                } else {
                    crate::route::lemma_spliced_len(
                        before.route_or_new(shape).anchors(),
                        start,
                        goal,
                    );
                    assert(self@.routes[i].1.anchors().len() >= 2);
                }
            }
        }
    }

    /// Removes all routes going through the given waypoint, and returns
    /// the ships that sailed them.
    pub fn remove_routes_at(&mut self, waypoint: Waypoint) -> (ships: Vec<Ship>)
        ensures
            final(self)@ == (WorldView {
                routes: WorldView::kept(old(self)@.routes, waypoint),
                ..old(self)@
            }),
            ship_views(ships@) == WorldView::evicted(old(self)@.routes, waypoint),
            WorldView::placed(final(self)@.routes) + ships@.len() == WorldView::placed(
                old(self)@.routes,
            ),
            old(self)@.wf() ==> final(self)@.wf(),
    {
        let ghost before = self@;
        let ghost test = avoids(waypoint);
        let mut ships: Vec<Ship> = Vec::new();
        let mut rest: Vec<(RouteShape, Route)> = Vec::new();
        rest.append(&mut self.routes);
        let mut done: usize = 0;
        let total = rest.len();
        proof {
            assert(before.routes.take(0) =~= Seq::empty());
            assert(before.routes.take(0).filter(test) =~= Seq::empty()) by {
                reveal(Seq::filter);
            }
            assert(self@.routes =~= Seq::empty());
            assert(ship_views(ships@) =~= Seq::empty());
        }
        while rest.len() > 0
            invariant
                done + rest@.len() == total,
                total == before.routes.len(),
                test == avoids(waypoint),
                forall|k: int|
                    0 <= k < rest@.len() ==> (#[trigger] rest@[k]).0 == before.routes[done + k].0
                        && rest@[k].1@ == before.routes[done + k].1,
                self@ == (WorldView {
                    routes: before.routes.take(done as int).filter(test),
                    ..before
                }),
                ship_views(ships@) == WorldView::evicted(before.routes.take(done as int), waypoint),
            decreases rest@.len(),
        {
            let ghost earlier = self@;
            let (shape, mut route) = rest.remove(0);
            proof {
                assert(before.routes.take(done + 1) =~= before.routes.take(done as int).push(
                    before.routes[done as int],
                ));
                assert(before.routes.take(done + 1).drop_last() =~= before.routes.take(
                    done as int,
                ));
                before.routes.take(done as int).lemma_filter_push(before.routes[done as int], test);
                assert((shape, route@) == before.routes[done as int]);
            }
            if route.contains(waypoint) {
                let ghost held = ships@;
                let mut taken = route.remove_ships();
                let ghost moved = taken@;
                ships.append(&mut taken);
                proof {
                    assert(ship_views(moved) =~= before.routes[done as int].1.ships);
                    assert(ship_views(ships@) =~= ship_views(held) + ship_views(moved));
                    assert(self@.routes =~= earlier.routes);
                }
            } else {
                self.routes.push((shape, route));
                proof {
                    assert(self@.routes =~= earlier.routes.push(before.routes[done as int]));
                }
            }
            done += 1;
        }
        proof {
            assert(before.routes.take(total as int) =~= before.routes);
            lemma_removal_keeps_ships(before.routes, waypoint);
            assert(ships@.len() == ship_views(ships@).len());
            if before.wf() {
                lemma_kept_wf(before, waypoint);
            }
        }
        ships
    }
}

/// Among the routes that stay when routes are removed, as before, no two
/// have the same shape and every one has a port.
proof fn lemma_kept_wf(before: WorldView, waypoint: Waypoint)
    requires
        before.wf(),
    ensures
        (WorldView { routes: WorldView::kept(before.routes, waypoint), ..before }).wf(),
{
    lemma_kept_routes(before.routes, waypoint);
    let kept = before.routes.filter(avoids(waypoint));
    assert forall|i: int| 0 <= i < kept.len() implies (#[trigger] kept[i]).1.paths.len() > 0 by {
        let k = choose|k: int| 0 <= k < before.routes.len() && before.routes[k] == kept[i];
        assert(before.routes[k].1.paths.len() > 0);
    }
}

/// Each route that stays was there before; and if no two routes had the
/// same shape, no two of those that stay have.
proof fn lemma_kept_routes(routes: Seq<(RouteShape, RouteView)>, waypoint: Waypoint)
    ensures
        forall|i: int|
            0 <= i < routes.filter(avoids(waypoint)).len() ==> exists|k: int|
                0 <= k < routes.len() && routes[k] == #[trigger] routes.filter(avoids(waypoint))[i],
        shapes_of(routes).no_duplicates() ==> shapes_of(
            routes.filter(avoids(waypoint)),
        ).no_duplicates(),
    decreases routes.len(),
{
    let test = avoids(waypoint);
    let kept = routes.filter(test);
    if routes.len() == 0 {
        assert(kept =~= Seq::empty()) by {
            reveal(Seq::filter);
        }
    } else {
        let fewer = routes.drop_last();
        let kept_fewer = fewer.filter(test);
        lemma_kept_routes(fewer, waypoint);
        assert(fewer.push(routes.last()) =~= routes);
        fewer.lemma_filter_push(routes.last(), test);
        assert forall|i: int| 0 <= i < kept.len() implies exists|k: int|
            0 <= k < routes.len() && routes[k] == #[trigger] kept[i] by {
            if i < kept_fewer.len() {
                assert(kept_fewer[i] == kept[i]);
                let k = choose|k: int| 0 <= k < fewer.len() && fewer[k] == kept_fewer[i];
                assert(routes[k] == kept[i]);
            } else {
                assert(routes[routes.len() - 1] == kept[i]);
            }
        }
        if shapes_of(routes).no_duplicates() {
            assert forall|a: int, b: int|
                0 <= a < fewer.len() && 0 <= b < fewer.len() && a != b implies shapes_of(fewer)[a]
                != shapes_of(fewer)[b] by {
                assert(shapes_of(routes)[a] != shapes_of(routes)[b]);
            }
            assert forall|a: int, b: int|
                0 <= a < kept.len() && 0 <= b < kept.len() && a != b implies shapes_of(kept)[a]
                != shapes_of(kept)[b] by {
                if a < kept_fewer.len() && b < kept_fewer.len() {
                    assert(shapes_of(kept_fewer)[a] != shapes_of(kept_fewer)[b]);
                } else {
                    let inner = if a < b {
                        a
                    } else {
                        b
                    };
                    let found = kept_fewer[inner];
                    let k = choose|k: int| 0 <= k < fewer.len() && fewer[k] == kept_fewer[inner];
                    assert(shapes_of(routes)[k] != shapes_of(routes)[routes.len() - 1]);
                }
            }
        }
    }
}

/// One ship more on one route is one ship more on all routes together.
pub proof fn lemma_placed_one_more(routes: Seq<(RouteShape, RouteView)>, at: int, ship: ShipView)
    requires
        0 <= at < routes.len(),
    ensures
        WorldView::placed(
            routes.update(
                at,
                (routes[at].0, RouteView { ships: routes[at].1.ships.push(ship), ..routes[at].1 }),
            ),
        ) == WorldView::placed(routes) + 1,
    decreases routes.len(),
{
    let more = routes.update(
        at,
        (routes[at].0, RouteView { ships: routes[at].1.ships.push(ship), ..routes[at].1 }),
    );
    if at == routes.len() - 1 {
        assert(more.drop_last() =~= routes.drop_last());
    } else {
        lemma_placed_one_more(routes.drop_last(), at, ship);
        assert(more.drop_last() =~= routes.drop_last().update(
            at,
            (routes[at].0, RouteView { ships: routes[at].1.ships.push(ship), ..routes[at].1 }),
        ));
    }
}

impl World {
    /// Opens one of the closed ports, picked at random, if any is left, and
    /// returns a mutable reference to it: the port leaves the closed ports
    /// and becomes the last of the open ports.
    pub fn open_random_port(&mut self, gen: &mut StdRng) -> (port: Option<&mut Port>)
        ensures
            port is None <==> old(self)@.closed_ports.len() == 0,
            final(self)@.map == old(self)@.map,
            final(self)@.routes == old(self)@.routes,
            final(self)@.shipyard == old(self)@.shipyard,
            match port {
                Some(opened) => {
                    &&& final(self)@.closed_ports.to_multiset().insert(*opened)
                        == old(self)@.closed_ports.to_multiset()
                    &&& final(self)@.open_ports == old(self)@.open_ports.push(*final(opened))
                },
                None => {
                    &&& final(self)@.closed_ports == old(self)@.closed_ports
                    &&& final(self)@.open_ports == old(self)@.open_ports
                },
            },
    {
        let ghost before = self@;
        shuffle(gen, &mut self.closed_ports);
        let ghost shuffled = self.closed_ports@;
        proof {
            broadcast use vstd::seq_lib::group_to_multiset_ensures;

            assert(self@.routes =~= before.routes);
            shuffled.to_multiset_ensures();
            before.closed_ports.to_multiset_ensures();
            assert(shuffled.len() == before.closed_ports.len());
        }
        match self.closed_ports.pop() {
            Some(port) => {
                proof {
                    assert(shuffled =~= self.closed_ports@.push(port));
                    vstd::seq_lib::to_multiset_build(self.closed_ports@, port);
                }
                self.open_ports.push(port);
                let last = self.open_ports.len() - 1;
                let opened = &mut self.open_ports[last];
                proof {
                    assert(old(self).open_ports@.push(port).update(last as int, *final(opened))
                        =~= old(self).open_ports@.push(*final(opened)));
                }
                Some(opened)
            },
            None => {
                assert(self.closed_ports@ =~= before.closed_ports);
                None
            },
        }
    }

    /// Places a new ship at `position` if a route passes there: on the
    /// first such route, to sail the first path of that route that holds
    /// the position. Tells whether a ship was placed.
    pub fn place_ship(&mut self, position: Position) -> (placed: bool)
        ensures
            placed == old(self)@.hosts(Waypoint(position)),
            final(self)@ == (if placed {
                old(self)@.with_ship(Waypoint(position))
            } else {
                old(self)@
            }),
            WorldView::placed(final(self)@.routes) == WorldView::placed(old(self)@.routes) + (if placed {
                1nat
            } else {
                0nat
            }),
            old(self)@.wf() ==> final(self)@.wf(),
    {
        let waypoint = Waypoint(position);
        let ghost before = self@;
        let ghost passing = self@.passing(waypoint);
        let mut i: usize = 0;
        while i < self.routes.len()
            invariant
                i <= self.routes@.len(),
                self@ == before,
                before == old(self)@,
                waypoint == Waypoint(position),
                passing == before.passing(waypoint),
                forall|k: int| 0 <= k < i ==> !passing[k],
            decreases self.routes@.len() - i,
        {
            if self.routes[i].1.contains(waypoint) {
                proof {
                    assert(passing[i as int]);
                    lemma_first_index_is(passing, true, i as int);
                }
                let path = self.routes[i].1.path(waypoint);
                let ship = Ship::new(waypoint, path);
                assert(ship@ == before.new_ship(waypoint));
                self.routes[i].1.add_ship(ship);
                proof {
                    assert(passing.contains(true));
                    assert(before.host(waypoint) == i);
                    assert(self@.routes[i as int].1 == (RouteView {
                        ships: before.routes[i as int].1.ships.push(before.new_ship(waypoint)),
                        ..before.routes[i as int].1
                    }));
                    assert(self@.routes =~= before.with_ship(waypoint).routes);
                    lemma_placed_one_more(before.routes, i as int, before.new_ship(waypoint));
                    assert(shapes_of(self@.routes) =~= shapes_of(before.routes));
                }
                return true;
            }
            i += 1;
        }
        false
    }
}

impl World {
    /// Tells whether the world is in order: whether its map is small
    /// enough to search, no two of its routes have the same shape, and
    /// every route has a port.
    pub fn is_well_formed(&self) -> (ok: bool)
        ensures
            ok == self@.wf(),
    {
        if self.map.len() > MAX_TILES {
            return false;
        }
        let ghost shapes = self@.shapes();
        let mut i: usize = 0;
        while i < self.routes.len()
            invariant
                i <= self.routes@.len(),
                shapes == self@.shapes(),
                self@.map.len() <= MAX_TILES,
                forall|k: int| 0 <= k < i ==> (#[trigger] self@.routes[k]).1.paths.len() > 0,
                forall|a: int, b: int| 0 <= a < b < i ==> shapes[a] != shapes[b],
            decreases self.routes@.len() - i,
        {
            if self.routes[i].1.legs().len() == 0 {
                assert(self@.routes[i as int].1.paths.len() == 0);
                return false;
            }
            let mut k: usize = 0;
            while k < i
                invariant
                    k <= i < self.routes@.len(),
                    shapes == self@.shapes(),
                    forall|a: int| 0 <= a < k ==> shapes[a] != shapes[i as int],
                decreases i - k,
            {
                if self.routes[k].0 == self.routes[i].0 {
                    assert(shapes[k as int] == shapes[i as int]);
                    return false;
                }
                k += 1;
            }
            i += 1;
        }
        true
    }

    /// Returns the number of ships on all routes, if it can be told.
    pub fn placed(&self) -> (count: Option<usize>)
        ensures
            match count {
                Some(n) => n == WorldView::placed(self@.routes),
                None => WorldView::placed(self@.routes) > usize::MAX,
            },
    {
        let mut count: usize = 0;
        let mut i: usize = 0;
        assert(self@.routes.take(0) =~= Seq::empty());
        while i < self.routes.len()
            invariant
                i <= self.routes@.len(),
                count == WorldView::placed(self@.routes.take(i as int)),
            decreases self.routes@.len() - i,
        {
            let ships = self.routes[i].1.ships().len();
            proof {
                assert(self@.routes.take(i + 1).drop_last() =~= self@.routes.take(i as int));
                assert(self@.routes.take(i + 1).last() == self@.routes[i as int]);
            }
            if ships > usize::MAX - count {
                proof {
                    lemma_placed_grows(self@.routes, i + 1);
                }
                return None;
            }
            count += ships;
            i += 1;
        }
        assert(self@.routes.take(self@.routes.len() as int) =~= self@.routes);
        Some(count)
    }
}

/// The first routes hold no more ships than all routes.
proof fn lemma_placed_grows(routes: Seq<(RouteShape, RouteView)>, upto: int)
    requires
        0 <= upto <= routes.len(),
    ensures
        WorldView::placed(routes.take(upto)) <= WorldView::placed(routes),
    decreases routes.len() - upto,
{
    if upto == routes.len() {
        assert(routes.take(upto) =~= routes);
    } else {
        lemma_placed_grows(routes, upto + 1);
        assert(routes.take(upto + 1).drop_last() =~= routes.take(upto));
    }
}

} // verus!
