//! Shortest routes over the tile map.
//!
//! A route may pass through water tiles and through tiles that hold a port.
//! A step leads from a cell to itself or to one of its four neighbours. It
//! costs 1, or 2 when the cell stepped into already lies on some route, so
//! that new routes avoid lying on top of old ones where they can.

use vstd::prelude::*;
use crate::geometry::{adjacent, Position};
use crate::port::Port;
use crate::tile::{Tile, TileKind};
use crate::waypoint::Waypoint;

verus! {

/// The largest map that a search accepts: the cost of a route over it still
/// fits the cost's type.
pub const MAX_TILES: usize = 0x3fff_fffe;

/// Some port lies at `position`.
pub open spec fn port_at(ports: Seq<Port>, position: Position) -> bool {
    exists|k: int| 0 <= k < ports.len() && (#[trigger] ports[k]).position == position
}

/// A route may pass through `tile`: it is water, or a port lies on it.
pub open spec fn passable(tile: Tile, ports: Seq<Port>) -> bool {
    tile.kind == TileKind::Water || port_at(ports, tile.position)
}

/// Some tile of the map at `position` lets a route through.
pub open spec fn enterable(map: Seq<Tile>, ports: Seq<Port>, position: Position) -> bool {
    exists|i: int|
        0 <= i < map.len() && (#[trigger] map[i]).position == position && passable(map[i], ports)
}

/// One step of a route may lead from `from` to `to`.
pub open spec fn can_step(map: Seq<Tile>, ports: Seq<Port>, from: Position, to: Position) -> bool {
    adjacent(from, to) && enterable(map, ports, to)
}

/// What a step into `to` costs, given the waypoints of the routes that exist.
pub open spec fn step_cost(waypoints: Seq<Waypoint>, to: Position) -> int {
    if waypoints.contains(Waypoint(to)) {
        2
    } else {
        1
    }
}

/// `walk` is a non-empty sequence of cells, each one step from the one before.
pub open spec fn is_walk(map: Seq<Tile>, ports: Seq<Port>, walk: Seq<Position>) -> bool {
    walk.len() >= 1 && forall|i: int|
        0 <= i < walk.len() - 1 ==> can_step(map, ports, #[trigger] walk[i], walk[i + 1])
}

/// The summed cost of the steps of `walk`. Its first cell is where the walk
/// stands at the outset, and costs nothing.
pub open spec fn walk_cost(waypoints: Seq<Waypoint>, walk: Seq<Position>) -> int
    decreases walk.len(),
{
    if walk.len() <= 1 {
        0
    } else {
        walk_cost(waypoints, walk.drop_last()) + step_cost(waypoints, walk.last())
    }
}

/// `walk` leads from `start` to `goal`.
pub open spec fn connects(
    map: Seq<Tile>,
    ports: Seq<Port>,
    walk: Seq<Position>,
    start: Position,
    goal: Position,
) -> bool {
    is_walk(map, ports, walk) && walk[0] == start && walk.last() == goal
}

/// Some walk leads from `start` to `goal`.
pub open spec fn connected(map: Seq<Tile>, ports: Seq<Port>, start: Position, goal: Position) -> bool {
    exists|walk: Seq<Position>| connects(map, ports, walk, start, goal)
}

/// `walk` leads from `start` to `goal` at cost `cost`, and no walk between
/// the two is cheaper.
pub open spec fn is_shortest(
    map: Seq<Tile>,
    ports: Seq<Port>,
    waypoints: Seq<Waypoint>,
    walk: Seq<Position>,
    start: Position,
    goal: Position,
    cost: int,
) -> bool {
    &&& connects(map, ports, walk, start, goal)
    &&& walk_cost(waypoints, walk) == cost
    &&& forall|other: Seq<Position>| #[trigger]
        connects(map, ports, other, start, goal) ==> cost <= walk_cost(waypoints, other)
}

/// The test that `reachable` applies to each tile of the map.
pub open spec fn within_reach(ports: Seq<Port>, position: Position) -> spec_fn(Tile) -> bool {
    |tile: Tile| adjacent(position, tile.position) && passable(tile, ports)
}

/// The cells one step away from `position`, in the order of the map's tiles.
pub open spec fn reachable_cells(map: Seq<Tile>, ports: Seq<Port>, position: Position) -> Seq<
    Position,
> {
    map.filter(within_reach(ports, position)).map_values(|tile: Tile| tile.position)
}

/// Tells whether a port lies at `position`.
pub fn has_port(ports: &[Port], position: Position) -> (found: bool)
    ensures
        found == port_at(ports@, position),
{
    let mut k: usize = 0;
    while k < ports.len()
        invariant
            k <= ports.len(),
            forall|m: int| 0 <= m < k ==> (#[trigger] ports@[m]).position != position,
        decreases ports.len() - k,
    {
        if ports[k].position == position {
            return true;
        }
        k += 1;
    }
    false
}

/// Tells whether a route may pass through `tile`.
pub fn is_passable(tile: &Tile, ports: &[Port]) -> (open: bool)
    ensures
        open == passable(*tile, ports@),
{
    tile.kind == TileKind::Water || has_port(ports, tile.position)
}

/// Tells whether some route already passes `position`.
pub fn on_route(waypoints: &[Waypoint], position: Position) -> (found: bool)
    ensures
        found == waypoints@.contains(Waypoint(position)),
{
    let mut k: usize = 0;
    while k < waypoints.len()
        invariant
            k <= waypoints.len(),
            forall|m: int| 0 <= m < k ==> waypoints@[m] != Waypoint(position),
        decreases waypoints.len() - k,
    {
        if waypoints[k].0 == position {
            return true;
        }
        k += 1;
    }
    false
}

/// Returns all cells that a trade route can step into from `position`: the
/// position itself and its four neighbours, as far as the map holds a water
/// tile or a port there. One cell comes back for each such tile, in the
/// map's order.
pub fn reachable(map: &[Tile], ports: &[Port], position: Position) -> (cells: Vec<Position>)
    ensures
        cells@ == reachable_cells(map@, ports@, position),
        forall|to: Position| cells@.contains(to) <==> can_step(map@, ports@, position, to),
{
    let mut cells: Vec<Position> = Vec::new();
    let mut i: usize = 0;
    assert(map@.take(0).filter(within_reach(ports@, position)) =~= Seq::<Tile>::empty()) by {
        reveal(Seq::filter);
    }
    while i < map.len()
        invariant
            i <= map.len(),
            cells@ == reachable_cells(map@.take(i as int), ports@, position),
            forall|k: int|
                0 <= k < cells.len() ==> can_step(map@, ports@, position, #[trigger] cells@[k]),
            forall|j: int|
                0 <= j < i && adjacent(position, (#[trigger] map@[j]).position) && passable(
                    map@[j],
                    ports@,
                ) ==> cells@.contains(map@[j].position),
        decreases map.len() - i,
    {
        let tile = &map[i];
        let ghost before = cells@;
        proof {
            assert(map@.take(i + 1) =~= map@.take(i as int).push(map@[i as int]));
            map@.take(i as int).lemma_filter_push(map@[i as int], within_reach(ports@, position));
        }
        if position.is_adjacent(tile.position) && is_passable(tile, ports) {
            cells.push(tile.position);
            proof {
                assert(cells@[cells.len() - 1] == tile.position);
                assert forall|j: int|
                    0 <= j < i + 1 && adjacent(position, (#[trigger] map@[j]).position)
                        && passable(map@[j], ports@) implies cells@.contains(
                    map@[j].position,
                ) by {
                    if j < i {
                        let k = choose|k: int| 0 <= k < before.len() && before[k] == map@[j].position;
                        assert(cells@[k] == map@[j].position);
                    }
                }
            }
        }
        assert(cells@ =~= reachable_cells(map@.take(i + 1), ports@, position));
        i += 1;
    }
    assert(map@.take(map.len() as int) =~= map@);
    assert forall|to: Position| can_step(map@, ports@, position, to) implies cells@.contains(
        to,
    ) by {
        let j = choose|j: int|
            0 <= j < map@.len() && (#[trigger] map@[j]).position == to && passable(map@[j], ports@);
        assert(cells@.contains(map@[j].position));
    }
    cells
}

/// The bookkeeping of a search, one entry per tile of the map.
///
/// A tile is `seen` once some walk from the start to it is known; `dist` is
/// then the cost of the cheapest walk known and `prev` the tile before it on
/// that walk (the map's length where that is the start itself). A tile is
/// `done` once no cheaper walk to it can exist.
struct Search {
    dist: Vec<i32>,
    prev: Vec<usize>,
    seen: Vec<bool>,
    done: Vec<bool>,
}

/// The entry of tile `j` is backed by the entry of the tile before it.
#[verifier::opaque]
spec fn backed(s: Search, map: Seq<Tile>, waypoints: Seq<Waypoint>, start: Position, j: int) -> bool {
    let cost = step_cost(waypoints, map[j].position);
    if s.prev@[j] == map.len() {
        adjacent(start, map[j].position) && s.dist@[j] == cost
    } else {
        let i = s.prev@[j] as int;
        &&& 0 <= i < map.len()
        &&& s.done@[i]
        &&& adjacent(map[i].position, map[j].position)
        &&& s.dist@[j] == s.dist@[i] + cost
    }
}

/// What it is for an entry to be backed.
proof fn lemma_backed(s: Search, map: Seq<Tile>, waypoints: Seq<Waypoint>, start: Position, j: int)
    ensures
        backed(s, map, waypoints, start, j) == (if s.prev@[j] == map.len() {
            adjacent(start, map[j].position) && s.dist@[j] == step_cost(waypoints, map[j].position)
        } else {
            &&& 0 <= s.prev@[j] < map.len()
            &&& s.done@[s.prev@[j] as int]
            &&& adjacent(map[s.prev@[j] as int].position, map[j].position)
            &&& s.dist@[j] == s.dist@[s.prev@[j] as int] + step_cost(waypoints, map[j].position)
        }),
{
    reveal(backed);
}

/// Every entry that is seen stands for a walk, and no tile at the goal is done.
spec fn linked(
    s: Search,
    map: Seq<Tile>,
    ports: Seq<Port>,
    waypoints: Seq<Waypoint>,
    start: Position,
    goal: Position,
) -> bool {
    &&& s.dist@.len() == map.len()
    &&& s.prev@.len() == map.len()
    &&& s.seen@.len() == map.len()
    &&& s.done@.len() == map.len()
    &&& forall|j: int|
        0 <= j < map.len() && #[trigger] s.seen@[j] ==> passable(map[j], ports) && 1 <= s.dist@[j]
            && backed(s, map, waypoints, start, j)
    &&& forall|j: int|
        0 <= j < map.len() && #[trigger] s.done@[j] ==> s.seen@[j] && map[j].position != goal
}

/// Each of the first `upto` tiles that is one step from `from` is seen, at no
/// more than `base` and the cost of that step.
spec fn relaxed(
    s: Search,
    map: Seq<Tile>,
    ports: Seq<Port>,
    waypoints: Seq<Waypoint>,
    from: Position,
    base: int,
    upto: int,
) -> bool {
    forall|j: int|
        0 <= j < upto && j < map.len() && adjacent(from, (#[trigger] map[j]).position) && passable(
            map[j],
            ports,
        ) ==> s.seen@[j] && s.dist@[j] <= base + step_cost(waypoints, map[j].position)
}

/// The steps out of every tile that is done, but for tile `skip`, have been
/// followed.
spec fn closed(
    s: Search,
    map: Seq<Tile>,
    ports: Seq<Port>,
    waypoints: Seq<Waypoint>,
    skip: int,
) -> bool {
    forall|i: int, j: int|
        0 <= i < map.len() && 0 <= j < map.len() && i != skip && #[trigger] s.done@[i] && adjacent(
            map[i].position,
            (#[trigger] map[j]).position,
        ) && passable(map[j], ports) ==> s.seen@[j] && s.dist@[j] <= s.dist@[i] + step_cost(
            waypoints,
            map[j].position,
        )
}

/// No tile that is done lies further from the start than one that is not.
spec fn ordered(s: Search, n: int) -> bool {
    forall|i: int, k: int|
        0 <= i < n && 0 <= k < n && #[trigger] s.done@[i] && #[trigger] s.seen@[k] && !s.done@[k]
            ==> s.dist@[i] <= s.dist@[k]
}

/// No known cost exceeds `cap`.
spec fn capped(s: Search, n: int, cap: int) -> bool {
    forall|j: int| 0 <= j < n && #[trigger] s.seen@[j] ==> s.dist@[j] <= cap
}

/// The number of entries that are `false`.
spec fn pending(done: Seq<bool>) -> nat
    decreases done.len(),
{
    if done.len() == 0 {
        0
    } else {
        pending(done.drop_last()) + if done.last() {
            0nat
        } else {
            1nat
        }
    }
}

proof fn lemma_pending_bound(done: Seq<bool>)
    ensures
        pending(done) <= done.len(),
    decreases done.len(),
{
    if done.len() > 0 {
        lemma_pending_bound(done.drop_last());
    }
}

proof fn lemma_pending_settle(done: Seq<bool>, u: int)
    requires
        0 <= u < done.len(),
        !done[u],
    ensures
        pending(done) == pending(done.update(u, true)) + 1,
    decreases done.len(),
{
    let after = done.update(u, true);
    if u == done.len() - 1 {
        assert(after.drop_last() =~= done.drop_last());
    } else {
        lemma_pending_settle(done.drop_last(), u);
        assert(after.drop_last() =~= done.drop_last().update(u, true));
    }
}

/// A walk with a cell put in front costs what the walk costs and the step
/// into the walk's first cell.
proof fn lemma_cost_prepend(waypoints: Seq<Waypoint>, first: Position, walk: Seq<Position>)
    requires
        walk.len() >= 1,
    ensures
        walk_cost(waypoints, seq![first] + walk) == step_cost(waypoints, walk[0]) + walk_cost(
            waypoints,
            walk,
        ),
    decreases walk.len(),
{
    let whole = seq![first] + walk;
    if walk.len() == 1 {
        assert(whole.drop_last() =~= seq![first]);
        assert(walk_cost(waypoints, seq![first]) == 0);
        assert(whole.last() == walk[0]);
    } else {
        lemma_cost_prepend(waypoints, first, walk.drop_last());
        assert(whole.drop_last() =~= seq![first] + walk.drop_last());
        assert(whole.last() == walk.last());
        assert(walk.drop_last()[0] == walk[0]);
    }
}

/// A walk from the start of a search either ends at a tile that is done, and
/// costs no less than is recorded for it, or costs no less than is recorded
/// for some tile that is seen and not done.
proof fn lemma_frontier(
    s: Search,
    map: Seq<Tile>,
    ports: Seq<Port>,
    waypoints: Seq<Waypoint>,
    start: Position,
    goal: Position,
    walk: Seq<Position>,
    j: int,
)
    requires
        linked(s, map, ports, waypoints, start, goal),
        relaxed(s, map, ports, waypoints, start, 0, map.len() as int),
        closed(s, map, ports, waypoints, -1),
        is_walk(map, ports, walk),
        walk.len() >= 2,
        walk[0] == start,
        0 <= j < map.len(),
        map[j].position == walk.last(),
        passable(map[j], ports),
    ensures
        (s.done@[j] && s.dist@[j] <= walk_cost(waypoints, walk)) || (exists|k: int|
            0 <= k < map.len() && #[trigger] s.seen@[k] && !s.done@[k] && s.dist@[k] <= walk_cost(
                waypoints,
                walk,
            )),
    decreases walk.len(),
{
    let before = walk.drop_last();
    let last = walk.len() - 1;
    assert(can_step(map, ports, walk[last - 1], walk[last - 1 + 1]));
    assert(adjacent(before.last(), map[j].position));
    if before.len() == 1 {
        assert(walk_cost(waypoints, before) == 0);
        assert(s.seen@[j]);
    } else {
        assert(is_walk(map, ports, before)) by {
            assert forall|i: int| 0 <= i < before.len() - 1 implies can_step(
                map,
                ports,
                #[trigger] before[i],
                before[i + 1],
            ) by {
                assert(can_step(map, ports, walk[i], walk[i + 1]));
            }
        }
        assert(can_step(map, ports, walk[last - 2], walk[last - 2 + 1]));
        let i = choose|i: int|
            0 <= i < map.len() && (#[trigger] map[i]).position == before.last() && passable(
                map[i],
                ports,
            );
        lemma_frontier(s, map, ports, waypoints, start, goal, before, i);
        if s.done@[i] && s.dist@[i] <= walk_cost(waypoints, before) {
            assert(s.seen@[j]);
        } else {
            let k = choose|k: int|
                0 <= k < map.len() && #[trigger] s.seen@[k] && !s.done@[k] && s.dist@[k]
                    <= walk_cost(waypoints, before);
            assert(s.seen@[k]);
        }
    }
}

fn filled_flags(n: usize) -> (v: Vec<bool>)
    ensures
        v@.len() == n,
        forall|j: int| 0 <= j < n ==> !v@[j],
{
    let mut v: Vec<bool> = Vec::new();
    while v.len() < n
        invariant
            v@.len() <= n,
            forall|j: int| 0 <= j < v@.len() ==> !v@[j],
        decreases n - v@.len(),
    {
        v.push(false);
    }
    v
}

fn filled_costs(n: usize) -> (v: Vec<i32>)
    ensures
        v@.len() == n,
{
    let mut v: Vec<i32> = Vec::new();
    while v.len() < n
        invariant
            v@.len() <= n,
        decreases n - v@.len(),
    {
        v.push(i32::MAX);
    }
    v
}

fn filled_links(n: usize) -> (v: Vec<usize>)
    ensures
        v@.len() == n,
{
    let mut v: Vec<usize> = Vec::new();
    while v.len() < n
        invariant
            v@.len() <= n,
        decreases n - v@.len(),
    {
        v.push(n);
    }
    v
}

/// Returns `cells` in reverse order.
fn reversed(cells: &Vec<Position>) -> (back: Vec<Position>)
    ensures
        back@ == cells@.reverse(),
{
    let mut back: Vec<Position> = Vec::new();
    let mut k: usize = cells.len();
    while k > 0
        invariant
            k <= cells.len(),
            back@.len() == cells.len() - k,
            forall|m: int| 0 <= m < back@.len() ==> back@[m] == cells@[cells.len() - 1 - m],
        decreases k,
    {
        k -= 1;
        back.push(cells[k]);
    }
    assert(back@ =~= cells@.reverse());
    back
}

impl Search {
    /// Picks, among the tiles that are seen and not done, one of least cost.
    fn nearest(&self) -> (found: Option<usize>)
        requires
            self.dist@.len() == self.seen@.len(),
            self.done@.len() == self.seen@.len(),
        ensures
            match found {
                Some(u) => u < self.seen@.len() && self.seen@[u as int] && !self.done@[u as int]
                    && forall|k: int|
                    0 <= k < self.seen@.len() && #[trigger] self.seen@[k] && !self.done@[k]
                        ==> self.dist@[u as int] <= self.dist@[k],
                None => forall|k: int|
                    0 <= k < self.seen@.len() && #[trigger] self.seen@[k] ==> self.done@[k],
            },
    {
        let n = self.seen.len();
        let mut best: Option<usize> = None;
        let mut k: usize = 0;
        while k < n
            invariant
                k <= n,
                n == self.seen@.len(),
                self.dist@.len() == n,
                self.done@.len() == n,
                match best {
                    Some(u) => u < n && self.seen@[u as int] && !self.done@[u as int]
                        && forall|m: int|
                        0 <= m < k && #[trigger] self.seen@[m] && !self.done@[m]
                            ==> self.dist@[u as int] <= self.dist@[m],
                    None => forall|m: int| 0 <= m < k && #[trigger] self.seen@[m] ==> self.done@[m],
                },
            decreases n - k,
        {
            if self.seen[k] && !self.done[k] {
                match best {
                    Some(u) => {
                        if self.dist[k] < self.dist[u] {
                            best = Some(k);
                        }
                    },
                    None => {
                        best = Some(k);
                    },
                }
            }
            k += 1;
        }
        best
    }

    /// Follows every step out of `from`, a cell at cost `base` from the start:
    /// where that gives the tile stepped into a cheaper walk than is known,
    /// the walk through tile `origin` is recorded for it.
    fn relax(
        &mut self,
        map: &[Tile],
        ports: &[Port],
        waypoints: &[Waypoint],
        Ghost(start): Ghost<Position>,
        Ghost(goal): Ghost<Position>,
        Ghost(cap): Ghost<int>,
        from: Position,
        origin: usize,
        base: i32,
    )
        requires
            linked(*old(self), map@, ports@, waypoints@, start, goal),
            closed(*old(self), map@, ports@, waypoints@, origin as int),
            ordered(*old(self), map@.len() as int),
            capped(*old(self), map@.len() as int, cap),
            0 <= base,
            base + 2 <= cap,
            cap <= i32::MAX,
            origin <= map@.len(),
            origin == map@.len() ==> from == start && base == 0,
            origin < map@.len() ==> from == map@[origin as int].position && old(self).done@[origin as int]
                && base == old(self).dist@[origin as int] && relaxed(
                *old(self),
                map@,
                ports@,
                waypoints@,
                start,
                0,
                map@.len() as int,
            ),
            forall|i: int|
                0 <= i < map@.len() && #[trigger] old(self).done@[i] ==> old(self).dist@[i] <= base,
        ensures
            linked(*final(self), map@, ports@, waypoints@, start, goal),
            closed(*final(self), map@, ports@, waypoints@, -1),
            ordered(*final(self), map@.len() as int),
            capped(*final(self), map@.len() as int, cap),
            relaxed(*final(self), map@, ports@, waypoints@, start, 0, map@.len() as int),
            final(self).done@ == old(self).done@,
    {
        let n = map.len();
        let mut j: usize = 0;
        while j < n
            invariant
                j <= n,
                n == map@.len(),
                linked(*self, map@, ports@, waypoints@, start, goal),
                closed(*self, map@, ports@, waypoints@, origin as int),
                ordered(*self, n as int),
                capped(*self, n as int, cap),
                relaxed(*self, map@, ports@, waypoints@, from, base as int, j as int),
                0 <= base,
                base + 2 <= cap,
            cap <= i32::MAX,
                origin <= n,
                origin == n ==> from == start && base == 0,
                origin < n ==> from == map@[origin as int].position && self.done@[origin as int] && base
                    == self.dist@[origin as int] && relaxed(
                    *self,
                    map@,
                    ports@,
                    waypoints@,
                    start,
                    0,
                    n as int,
                ),
                forall|i: int| 0 <= i < n && #[trigger] self.done@[i] ==> self.dist@[i] <= base,
                self.done@ == old(self).done@,
            decreases n - j,
        {
            let tile = &map[j];
            if from.is_adjacent(tile.position) && is_passable(tile, ports) {
                let step: i32 = if on_route(waypoints, tile.position) {
                    2
                } else {
                    1
                };
                let next: i32 = base + step;
                if !self.seen[j] || next < self.dist[j] {
                    let ghost before = *self;
                    self.dist.set(j, next);
                    self.prev.set(j, origin);
                    self.seen.set(j, true);
                    proof {
                        assert(!before.done@[j as int]);
                        assert forall|m: int|
                            0 <= m < n && #[trigger] self.seen@[m] implies passable(
                            map@[m],
                            ports@,
                        ) && 1 <= self.dist@[m] && backed(
                            *self,
                            map@,
                            waypoints@,
                            start,
                            m,
                        ) by {
                            lemma_backed(before, map@, waypoints@, start, m);
                            lemma_backed(*self, map@, waypoints@, start, m);
                            if m != j {
                                assert(before.seen@[m]);
                                assert(backed(before, map@, waypoints@, start, m));
                                if before.prev@[m] != n {
                                    assert(before.done@[before.prev@[m] as int]);
                                }
                            }
                        }
                        assert forall|m: int| 0 <= m < n && #[trigger] self.done@[m] implies self.seen@[m]
                            && map@[m].position != goal by {
                            assert(before.done@[m]);
                        }
                        assert forall|i: int, m: int|
                            0 <= i < n && 0 <= m < n && i != origin && #[trigger] self.done@[i]
                                && adjacent(map@[i].position, (#[trigger] map@[m]).position)
                                && passable(map@[m], ports@) implies self.seen@[m] && self.dist@[m]
                            <= self.dist@[i] + step_cost(waypoints@, map@[m].position) by {
                            assert(before.done@[i]);
                        }
                        assert forall|i: int, k: int|
                            0 <= i < n && 0 <= k < n && #[trigger] self.done@[i]
                                && #[trigger] self.seen@[k] && !self.done@[k] implies self.dist@[i]
                            <= self.dist@[k] by {
                            assert(before.done@[i]);
                            if k != j {
                                assert(before.seen@[k]);
                            }
                        }
                        assert forall|m: int| 0 <= m < n && #[trigger] self.seen@[m] implies self.dist@[m]
                            <= cap by {
                            if m != j {
                                assert(before.seen@[m]);
                            }
                        }
                        assert forall|m: int|
                            0 <= m < j && adjacent(from, (#[trigger] map@[m]).position) && passable(
                                map@[m],
                                ports@,
                            ) implies self.seen@[m] && self.dist@[m] <= base + step_cost(
                            waypoints@,
                            map@[m].position,
                        ) by {
                            assert(before.seen@[m]);
                        }
                        if origin < n {
                            assert forall|m: int|
                                0 <= m < n && adjacent(start, (#[trigger] map@[m]).position)
                                    && passable(map@[m], ports@) implies self.seen@[m]
                                && self.dist@[m] <= 0 + step_cost(waypoints@, map@[m].position) by {
                                assert(before.seen@[m]);
                            }
                        }
                        assert forall|i: int| 0 <= i < n && #[trigger] self.done@[i] implies self.dist@[i]
                            <= base by {
                            assert(before.done@[i]);
                        }
                    }
                }
            }
            j += 1;
        }
        proof {
            assert forall|i: int, m: int|
                0 <= i < n && 0 <= m < n && #[trigger] self.done@[i] && adjacent(
                    map@[i].position,
                    (#[trigger] map@[m]).position,
                ) && passable(map@[m], ports@) implies self.seen@[m] && self.dist@[m]
                <= self.dist@[i] + step_cost(waypoints@, map@[m].position) by {
                if i == origin {
                    assert(self.seen@[m]);
                }
            }
        }
    }
}

impl Search {
    /// Reads the walk recorded for tile `last` off the links, back to front,
    /// and returns it front to back.
    fn trace(
        &self,
        map: &[Tile],
        Ghost(ports): Ghost<Seq<Port>>,
        Ghost(waypoints): Ghost<Seq<Waypoint>>,
        start: Position,
        Ghost(goal): Ghost<Position>,
        last: usize,
    ) -> (walk: Vec<Position>)
        requires
            linked(*self, map@, ports, waypoints, start, goal),
            last < map@.len(),
            self.seen@[last as int],
        ensures
            connects(map@, ports, walk@, start, map@[last as int].position),
            walk_cost(waypoints, walk@) == self.dist@[last as int],
    {
        let n = map.len();
        let mut back: Vec<Position> = Vec::new();
        back.push(map[last].position);
        let mut current: usize = last;
        let ghost mut tail: Seq<Position> = seq![map@[last as int].position];
        while self.prev[current] != n
            invariant
                n == map@.len(),
                linked(*self, map@, ports, waypoints, start, goal),
                current < n,
                self.seen@[current as int],
                is_walk(map@, ports, tail),
                tail[0] == map@[current as int].position,
                tail.last() == map@[last as int].position,
                walk_cost(waypoints, tail) + self.dist@[current as int] == self.dist@[last as int],
                back@.len() == tail.len(),
                forall|m: int| 0 <= m < back@.len() ==> back@[m] == tail[tail.len() - 1 - m],
            decreases self.dist@[current as int],
        {
            let before = self.prev[current];
            proof {
                assert(backed(*self, map@, waypoints, start, current as int));
                lemma_backed(*self, map@, waypoints, start, current as int);
                assert(self.seen@[before as int]);
                let longer = seq![map@[before as int].position] + tail;
                lemma_cost_prepend(waypoints, map@[before as int].position, tail);
                assert forall|i: int| 0 <= i < longer.len() - 1 implies can_step(
                    map@,
                    ports,
                    #[trigger] longer[i],
                    longer[i + 1],
                ) by {
                    if i == 0 {
                        assert(map@[current as int].position == tail[0]);
                    } else {
                        assert(can_step(map@, ports, tail[i - 1], tail[i - 1 + 1]));
                    }
                }
                tail = longer;
            }
            back.push(map[before].position);
            current = before;
        }
        proof {
            assert(backed(*self, map@, waypoints, start, current as int));
            lemma_backed(*self, map@, waypoints, start, current as int);
            let longer = seq![start] + tail;
            lemma_cost_prepend(waypoints, start, tail);
            assert forall|i: int| 0 <= i < longer.len() - 1 implies can_step(
                map@,
                ports,
                #[trigger] longer[i],
                longer[i + 1],
            ) by {
                if i == 0 {
                    assert(map@[current as int].position == tail[0]);
                } else {
                    assert(can_step(map@, ports, tail[i - 1], tail[i - 1 + 1]));
                }
            }
            tail = longer;
        }
        back.push(start);
        let walk = reversed(&back);
        assert(walk@ =~= tail);
        walk
    }
}

/// Finds a cheapest walk from `start` to `goal`.
///
/// The search settles the cells around the start in the order of their cost,
/// the cheapest that is not yet settled first, and follows the steps out of
/// each, until the goal is the next to settle or no cell is left. It returns
/// the cost of the walk and its cells, `start` first and `goal` last, or
/// `None` where no walk leads from the one to the other. Where several walks
/// are cheapest, which of them comes back is left open.
///
/// While no waypoint is in use, the cost of the walk is the number of its
/// steps: the walk is a shortest one, and its cost is the distance from
/// `start` to `goal` over water and ports.
pub fn find_path(
    map: &[Tile],
    ports: &[Port],
    waypoints: &[Waypoint],
    start: Position,
    goal: Position,
) -> (found: Option<(i32, Vec<Position>)>)
    requires
        map@.len() <= MAX_TILES,
    ensures
        match found {
            Some((cost, walk)) => is_shortest(
                map@,
                ports@,
                waypoints@,
                walk@,
                start,
                goal,
                cost as int,
            ),
            None => !connected(map@, ports@, start, goal),
        },
        match found {
            Some((cost, walk)) => waypoints@.len() == 0 ==> cost == walk@.len() - 1,
            None => true,
        },
{
    let found = search(map, ports, waypoints, start, goal);
    proof {
        if found is Some && waypoints@.len() == 0 {
            let pair = found->0;
            lemma_cost_counts_steps(waypoints@, pair.1@);
        }
    }
    found
}

/// What holds of a search between two rounds: every entry stands for a
/// walk, the steps out of the start and out of every tile that is done have
/// been followed, no tile that is done lies further than one that is not,
/// and no cost exceeds two for each tile done and two more.
spec fn sound(
    s: Search,
    map: Seq<Tile>,
    ports: Seq<Port>,
    waypoints: Seq<Waypoint>,
    start: Position,
    goal: Position,
) -> bool {
    &&& linked(s, map, ports, waypoints, start, goal)
    &&& closed(s, map, ports, waypoints, -1)
    &&& ordered(s, map.len() as int)
    &&& relaxed(s, map, ports, waypoints, start, 0, map.len() as int)
    &&& pending(s.done@) <= map.len()
    &&& capped(s, map.len() as int, 2 * (map.len() - pending(s.done@) + 1))
}

/// The tile at the goal that is the nearest of those not done lies at the
/// end of a cheapest walk: no walk to the goal costs less than is recorded
/// for it.
proof fn lemma_goal_is_cheapest(
    s: Search,
    map: Seq<Tile>,
    ports: Seq<Port>,
    waypoints: Seq<Waypoint>,
    start: Position,
    goal: Position,
    u: int,
)
    requires
        sound(s, map, ports, waypoints, start, goal),
        start != goal,
        0 <= u < map.len(),
        s.seen@[u],
        !s.done@[u],
        map[u].position == goal,
        forall|k: int|
            0 <= k < map.len() && #[trigger] s.seen@[k] && !s.done@[k] ==> s.dist@[u] <= s.dist@[k],
    ensures
        forall|other: Seq<Position>| #[trigger]
            connects(map, ports, other, start, goal) ==> s.dist@[u] <= walk_cost(waypoints, other),
{
    assert forall|other: Seq<Position>| #[trigger]
        connects(map, ports, other, start, goal) implies s.dist@[u] <= walk_cost(
        waypoints,
        other,
    ) by {
        lemma_frontier(s, map, ports, waypoints, start, goal, other, u);
    }
}

/// Once every tile that is seen is done, and none of them lies at the goal,
/// no walk leads to the goal.
proof fn lemma_search_is_exhausted(
    s: Search,
    map: Seq<Tile>,
    ports: Seq<Port>,
    waypoints: Seq<Waypoint>,
    start: Position,
    goal: Position,
)
    requires
        sound(s, map, ports, waypoints, start, goal),
        start != goal,
        forall|k: int| 0 <= k < map.len() && #[trigger] s.seen@[k] ==> s.done@[k],
    ensures
        !connected(map, ports, start, goal),
{
    if connected(map, ports, start, goal) {
        let walk = choose|walk: Seq<Position>| connects(map, ports, walk, start, goal);
        let last = walk.len() - 1;
        assert(can_step(map, ports, walk[last - 1], walk[last - 1 + 1]));
        let j = choose|j: int|
            0 <= j < map.len() && (#[trigger] map[j]).position == goal && passable(map[j], ports);
        lemma_frontier(s, map, ports, waypoints, start, goal, walk, j);
        assert(false);
    }
}

impl Search {
    /// Marks tile `u`, the nearest of those not done, as done, and follows
    /// the steps out of it.
    fn settle(
        &mut self,
        map: &[Tile],
        ports: &[Port],
        waypoints: &[Waypoint],
        Ghost(start): Ghost<Position>,
        Ghost(goal): Ghost<Position>,
        u: usize,
    )
        requires
            sound(*old(self), map@, ports@, waypoints@, start, goal),
            map@.len() <= MAX_TILES,
            u < map@.len(),
            old(self).seen@[u as int],
            !old(self).done@[u as int],
            map@[u as int].position != goal,
            forall|k: int|
                0 <= k < map@.len() && #[trigger] old(self).seen@[k] && !old(self).done@[k]
                    ==> old(self).dist@[u as int] <= old(self).dist@[k],
        ensures
            sound(*final(self), map@, ports@, waypoints@, start, goal),
            pending(final(self).done@) < pending(old(self).done@),
    {
        let n = map.len();
        let cost: i32 = self.dist[u];
        let ghost before = *self;
        proof {
            lemma_pending_settle(self.done@, u as int);
        }
        self.done.set(u, true);
        proof {
            assert forall|j: int| 0 <= j < n && #[trigger] self.seen@[j] implies passable(
                map@[j],
                ports@,
            ) && 1 <= self.dist@[j] && backed(*self, map@, waypoints@, start, j) by {
                assert(before.seen@[j]);
                assert(backed(before, map@, waypoints@, start, j));
                lemma_backed(before, map@, waypoints@, start, j);
                lemma_backed(*self, map@, waypoints@, start, j);
            }
            assert forall|i: int, j: int|
                0 <= i < n && 0 <= j < n && i != u && #[trigger] self.done@[i] && adjacent(
                    map@[i].position,
                    (#[trigger] map@[j]).position,
                ) && passable(map@[j], ports@) implies self.seen@[j] && self.dist@[j]
                <= self.dist@[i] + step_cost(waypoints@, map@[j].position) by {
                assert(before.done@[i]);
            }
            assert forall|i: int, k: int|
                0 <= i < n && 0 <= k < n && #[trigger] self.done@[i] && #[trigger] self.seen@[k]
                    && !self.done@[k] implies self.dist@[i] <= self.dist@[k] by {
                assert(before.seen@[k] && !before.done@[k]);
                if i != u {
                    assert(before.done@[i]);
                }
            }
            assert forall|i: int| 0 <= i < n && #[trigger] self.done@[i] implies self.dist@[i]
                <= cost by {
                if i != u {
                    assert(before.done@[i]);
                    assert(before.seen@[u as int]);
                }
            }
            assert(before.seen@[u as int]);
        }
        self.relax(
            map,
            ports,
            waypoints,
            Ghost(start),
            Ghost(goal),
            Ghost(2 * (n - pending(self.done@) + 1)),
            map[u].position,
            u,
            cost,
        );
    }
}

/// Settles cells in the order of their cost until the goal is next.
fn search(
    map: &[Tile],
    ports: &[Port],
    waypoints: &[Waypoint],
    start: Position,
    goal: Position,
) -> (found: Option<(i32, Vec<Position>)>)
    requires
        map@.len() <= MAX_TILES,
    ensures
        match found {
            Some((cost, walk)) => is_shortest(
                map@,
                ports@,
                waypoints@,
                walk@,
                start,
                goal,
                cost as int,
            ),
            None => !connected(map@, ports@, start, goal),
        },
{
    if start == goal {
        let mut walk: Vec<Position> = Vec::new();
        walk.push(start);
        proof {
            assert forall|other: Seq<Position>| #[trigger]
                connects(map@, ports@, other, start, goal) implies 0 <= walk_cost(
                waypoints@,
                other,
            ) by {
                lemma_cost_not_negative(waypoints@, other);
            }
        }
        return Some((0, walk));
    }
    let n = map.len();
    let mut search = Search {
        dist: filled_costs(n),
        prev: filled_links(n),
        seen: filled_flags(n),
        done: filled_flags(n),
    };
    proof {
        lemma_pending_bound(search.done@);
    }
    search.relax(map, ports, waypoints, Ghost(start), Ghost(goal), Ghost(2int), start, n, 0);
    loop
        invariant
            n == map@.len(),
            n <= MAX_TILES,
            start != goal,
            sound(search, map@, ports@, waypoints@, start, goal),
        decreases pending(search.done@),
    {
        match search.nearest() {
            None => {
                proof {
                    lemma_search_is_exhausted(search, map@, ports@, waypoints@, start, goal);
                }
                return None;
            },
            Some(u) => {
                if map[u].position == goal {
                    let cost: i32 = search.dist[u];
                    let walk = search.trace(
                        map,
                        Ghost(ports@),
                        Ghost(waypoints@),
                        start,
                        Ghost(goal),
                        u,
                    );
                    proof {
                        lemma_goal_is_cheapest(
                            search,
                            map@,
                            ports@,
                            waypoints@,
                            start,
                            goal,
                            u as int,
                        );
                    }
                    return Some((cost, walk));
                }
                search.settle(map, ports, waypoints, Ghost(start), Ghost(goal), u);
            },
        }
    }
}

/// No walk has a negative cost.
pub proof fn lemma_cost_not_negative(waypoints: Seq<Waypoint>, walk: Seq<Position>)
    ensures
        0 <= walk_cost(waypoints, walk),
    decreases walk.len(),
{
    if walk.len() > 1 {
        lemma_cost_not_negative(waypoints, walk.drop_last());
    }
}

/// A walk costs at least one for each of its steps, and at most two.
pub proof fn lemma_cost_bounds(waypoints: Seq<Waypoint>, walk: Seq<Position>)
    requires
        walk.len() >= 1,
    ensures
        walk.len() - 1 <= walk_cost(waypoints, walk) <= 2 * (walk.len() - 1),
    decreases walk.len(),
{
    if walk.len() > 1 {
        lemma_cost_bounds(waypoints, walk.drop_last());
    }
}

/// A walk that steps into no waypoint in use costs exactly one for each of
/// its steps. While no route exists, the cost of a walk is its length in
/// steps, and a cheapest walk is a shortest one.
pub proof fn lemma_cost_counts_steps(waypoints: Seq<Waypoint>, walk: Seq<Position>)
    requires
        walk.len() >= 1,
        forall|i: int| 1 <= i < walk.len() ==> !waypoints.contains(Waypoint(#[trigger] walk[i])),
    ensures
        walk_cost(waypoints, walk) == walk.len() - 1,
    decreases walk.len(),
{
    if walk.len() > 1 {
        let shorter = walk.drop_last();
        assert forall|i: int| 1 <= i < shorter.len() implies !waypoints.contains(
            Waypoint(#[trigger] shorter[i]),
        ) by {
            assert(shorter[i] == walk[i]);
        }
        lemma_cost_counts_steps(waypoints, shorter);
        assert(!waypoints.contains(Waypoint(walk[walk.len() - 1])));
    }
}

/// A walk that steps into a waypoint in use costs more than one for each of
/// its steps.
pub proof fn lemma_overlap_costs_more(waypoints: Seq<Waypoint>, walk: Seq<Position>, at: int)
    requires
        1 <= at < walk.len(),
        waypoints.contains(Waypoint(walk[at])),
    ensures
        walk_cost(waypoints, walk) > walk.len() - 1,
    decreases walk.len(),
{
    if at == walk.len() - 1 {
        lemma_cost_bounds(waypoints, walk.drop_last());
    } else {
        lemma_overlap_costs_more(waypoints, walk.drop_last(), at);
    }
}

/// Where two walks of the same length lead from `start` to `goal`, one
/// that keeps clear of the waypoints in use and one that steps into such a
/// waypoint, the search does not come back with the second: what it finds
/// costs no more than the first, which costs less than the second.
pub proof fn lemma_prefers_unused(
    map: Seq<Tile>,
    ports: Seq<Port>,
    waypoints: Seq<Waypoint>,
    found: Seq<Position>,
    cost: int,
    start: Position,
    goal: Position,
    clear: Seq<Position>,
    busy: Seq<Position>,
    at: int,
)
    requires
        is_shortest(map, ports, waypoints, found, start, goal, cost),
        connects(map, ports, clear, start, goal),
        connects(map, ports, busy, start, goal),
        clear.len() == busy.len(),
        forall|i: int| 1 <= i < clear.len() ==> !waypoints.contains(Waypoint(#[trigger] clear[i])),
        1 <= at < busy.len(),
        waypoints.contains(Waypoint(busy[at])),
    ensures
        cost <= walk_cost(waypoints, clear),
        walk_cost(waypoints, clear) < walk_cost(waypoints, busy),
        found != busy,
{
    lemma_cost_counts_steps(waypoints, clear);
    lemma_overlap_costs_more(waypoints, busy, at);
}

/// Where no tile of the map lets a route enter `goal`, and `goal` is not
/// the start itself, nothing leads there.
pub proof fn lemma_closed_goal_is_cut_off(
    map: Seq<Tile>,
    ports: Seq<Port>,
    start: Position,
    goal: Position,
)
    requires
        start != goal,
        !enterable(map, ports, goal),
    ensures
        !connected(map, ports, start, goal),
{
    if connected(map, ports, start, goal) {
        let walk = choose|walk: Seq<Position>| connects(map, ports, walk, start, goal);
        let last = walk.len() - 1;
        assert(can_step(map, ports, walk[last - 1], walk[last - 1 + 1]));
    }
}

} // verus!
