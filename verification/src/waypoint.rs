use vstd::prelude::*;
use vstd::std_specs::convert::FromSpecImpl;
use crate::geometry::Position;

verus! {

/// A grid position seen as a point on a route. Two waypoints are the same
/// when their positions are.
#[derive(Debug, Clone, Copy, PartialEq, Eq, Structural)]
pub struct Waypoint(pub Position);

impl From<Position> for Waypoint {
    fn from(position: Position) -> (w: Waypoint) {
        Waypoint(position)
    }
}

impl FromSpecImpl<Position> for Waypoint {
    open spec fn obeys_from_spec() -> bool {
        true
    }

    open spec fn from_spec(position: Position) -> Waypoint {
        Waypoint(position)
    }
}

impl From<Waypoint> for Position {
    fn from(waypoint: Waypoint) -> (p: Position) {
        waypoint.0
    }
}

impl FromSpecImpl<Waypoint> for Position {
    open spec fn obeys_from_spec() -> bool {
        true
    }

    open spec fn from_spec(waypoint: Waypoint) -> Position {
        waypoint.0
    }
}

/// The positions of a sequence of waypoints, in order.
pub open spec fn positions_of(waypoints: Seq<Waypoint>) -> Seq<Position> {
    waypoints.map_values(|w: Waypoint| w.0)
}

/// The waypoints at a sequence of positions, in order.
pub open spec fn waypoints_at(positions: Seq<Position>) -> Seq<Waypoint> {
    positions.map_values(|p: Position| Waypoint(p))
}

/// Turns positions into waypoints, one for one.
pub fn to_waypoints(positions: &Vec<Position>) -> (w: Vec<Waypoint>)
    ensures
        w@ == waypoints_at(positions@),
{
    let mut w: Vec<Waypoint> = Vec::new();
    let mut i: usize = 0;
    while i < positions.len()
        invariant
            i <= positions.len(),
            w.len() == i,
            forall|k: int| 0 <= k < i ==> w[k] == Waypoint(positions[k]),
        decreases positions.len() - i,
    {
        w.push(Waypoint::from(positions[i]));
        i += 1;
    }
    assert(w@ =~= waypoints_at(positions@));
    w
}

} // verus!
