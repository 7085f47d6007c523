use hansa::color::Color;
use hansa::geometry::Position;
use hansa::port::Port;
use hansa::route::{copy_path, delivered, find_port, Route};
use hansa::ship::{Ship, Trade};
use hansa::tile::{Tile, TileKind};
use hansa::waypoint::Waypoint;

fn pos(x: i32, y: i32) -> Position {
    Position::new(x, y)
}

fn way(x: i32, y: i32) -> Waypoint {
    Waypoint::from(Position::new(x, y))
}

fn ways(cells: &[(i32, i32)]) -> Vec<Waypoint> {
    cells.iter().map(|&(x, y)| way(x, y)).collect()
}

/// Three ports on a strip of water: `P~~P~~P`.
fn coast() -> (Vec<Tile>, Vec<Port>) {
    let mut tiles = Vec::new();
    let mut ports = Vec::new();
    for x in 0..7 {
        if x % 3 == 0 {
            tiles.push(Tile::new(pos(x, 0), TileKind::Land));
        } else {
            tiles.push(Tile::new(pos(x, 0), TileKind::Water));
        }
    }
    ports.push(Port::with_colors(pos(0, 0), Color::Red, Color::Green));
    ports.push(Port::with_colors(pos(3, 0), Color::Green, Color::Blue));
    ports.push(Port::with_colors(pos(6, 0), Color::Blue, Color::Red));
    (tiles, ports)
}

fn ends_meet(route: &Route) -> bool {
    let legs = route.legs();
    (0..legs.len()).all(|i| {
        let (port, path) = &legs[i];
        if i + 1 < legs.len() {
            path.len() >= 1
                && path[0] == Waypoint::from(*port)
                && Position::from(path[path.len() - 1]).is_adjacent(legs[i + 1].0)
        } else {
            path.is_empty()
        }
    })
}

#[test]
fn new_route_is_empty() {
    let route = Route::new();
    assert_eq!(route.ports(), Vec::<Position>::new());
    assert_eq!(route.waypoints(), Vec::<Waypoint>::new());
    assert_eq!(route.ships().len(), 0);
    assert!(!route.contains(way(0, 0)));
    assert_eq!(route.next_path(pos(0, 0)), None);
    assert_eq!(route.previous_path(pos(0, 0)), None);
}

#[test]
fn first_link_makes_two_ports_and_one_path() {
    let (map, ports) = coast();
    let mut route = Route::new();
    assert!(route.can_link(&map, &ports, pos(0, 0), pos(3, 0)));
    route.add_link(&map, &ports, &[], pos(0, 0), pos(3, 0), Vec::new());
    assert_eq!(route.ports(), vec![pos(0, 0), pos(3, 0)]);
    assert_eq!(route.initial_path(), ways(&[(0, 0), (1, 0), (2, 0), (3, 0)]));
    assert_eq!(route.waypoints(), ways(&[(0, 0), (1, 0), (2, 0), (3, 0)]));
    assert_eq!(route.next_path(pos(0, 0)), Some(ways(&[(0, 0), (1, 0), (2, 0), (3, 0)])));
    assert_eq!(route.next_path(pos(3, 0)), None);
    assert_eq!(route.previous_path(pos(3, 0)), Some(ways(&[(0, 0), (1, 0), (2, 0), (3, 0)])));
    assert_eq!(route.previous_path(pos(0, 0)), None);
    assert!(ends_meet(&route));
}

#[test]
fn the_path_handed_in_is_replaced() {
    let (map, ports) = coast();
    let mut route = Route::new();
    route.add_link(&map, &ports, &[], pos(0, 0), pos(3, 0), ways(&[(9, 9), (8, 8)]));
    assert_eq!(route.initial_path(), ways(&[(0, 0), (1, 0), (2, 0), (3, 0)]));
    assert!(!route.contains(way(9, 9)));
}

#[test]
fn link_from_the_last_port_extends_the_route() {
    let (map, ports) = coast();
    let mut route = Route::new();
    route.add_link(&map, &ports, &[], pos(0, 0), pos(3, 0), Vec::new());
    route.add_link(&map, &ports, &[], pos(3, 0), pos(6, 0), Vec::new());
    assert_eq!(route.ports(), vec![pos(0, 0), pos(3, 0), pos(6, 0)]);
    assert_eq!(route.next_path(pos(3, 0)), Some(ways(&[(3, 0), (4, 0), (5, 0), (6, 0)])));
    assert_eq!(route.previous_path(pos(3, 0)), Some(ways(&[(0, 0), (1, 0), (2, 0), (3, 0)])));
    assert_eq!(route.previous_path(pos(6, 0)), Some(ways(&[(3, 0), (4, 0), (5, 0), (6, 0)])));
    assert_eq!(route.next_path(pos(6, 0)), None);
    assert_eq!(
        route.waypoints(),
        ways(&[(0, 0), (1, 0), (2, 0), (3, 0), (3, 0), (4, 0), (5, 0), (6, 0)])
    );
    assert!(ends_meet(&route));
}

#[test]
fn link_from_an_earlier_port_is_spliced_in() {
    let (map, ports) = coast();
    let mut route = Route::new();
    route.add_link(&map, &ports, &[], pos(0, 0), pos(3, 0), Vec::new());
    // The port after the start becomes the new end; the paths from the
    // start on are found anew.
    route.add_link(&map, &ports, &[], pos(0, 0), pos(6, 0), Vec::new());
    assert_eq!(route.ports(), vec![pos(0, 0), pos(6, 0), pos(3, 0)]);
    assert_eq!(
        route.next_path(pos(0, 0)),
        Some(ways(&[(0, 0), (1, 0), (2, 0), (3, 0), (4, 0), (5, 0), (6, 0)]))
    );
    assert_eq!(route.next_path(pos(6, 0)), Some(ways(&[(6, 0), (5, 0), (4, 0), (3, 0)])));
    assert_eq!(route.next_path(pos(3, 0)), None);
    assert!(ends_meet(&route));
}

#[test]
fn link_from_a_port_off_the_route_goes_to_the_front() {
    let (map, ports) = coast();
    let mut route = Route::new();
    route.add_link(&map, &ports, &[], pos(0, 0), pos(3, 0), Vec::new());
    route.add_link(&map, &ports, &[], pos(6, 0), pos(3, 0), Vec::new());
    assert_eq!(route.ports(), vec![pos(6, 0), pos(3, 0), pos(3, 0)]);
    assert_eq!(route.initial_path(), ways(&[(6, 0), (5, 0), (4, 0), (3, 0)]));
    assert_eq!(route.next_path(pos(3, 0)), Some(ways(&[(3, 0)])));
    assert!(ends_meet(&route));
}

#[test]
fn chain_holds_after_a_sequence_of_links() {
    let (map, ports) = coast();
    let mut route = Route::new();
    let links = [
        (pos(0, 0), pos(3, 0)),
        (pos(3, 0), pos(6, 0)),
        (pos(0, 0), pos(6, 0)),
        (pos(6, 0), pos(0, 0)),
        (pos(3, 0), pos(0, 0)),
    ];
    for (start, end) in links.iter() {
        assert!(route.can_link(&map, &ports, *start, *end));
        let used = route.waypoints();
        route.add_link(&map, &ports, &used, *start, *end, Vec::new());
        assert!(ends_meet(&route));
    }
    assert_eq!(route.ports().len(), 6);
}

#[test]
fn links_that_the_map_cannot_hold_are_told() {
    let (mut map, ports) = coast();
    map[4] = Tile::new(pos(4, 0), TileKind::Land);
    let mut route = Route::new();
    assert!(route.can_link(&map, &ports, pos(0, 0), pos(3, 0)));
    assert!(!route.can_link(&map, &ports, pos(3, 0), pos(6, 0)));
    route.add_link(&map, &ports, &[], pos(0, 0), pos(3, 0), Vec::new());
    assert!(!route.can_link(&map, &ports, pos(3, 0), pos(6, 0)));
    // Spliced in at the front, the link needs a walk on to the old second port.
    assert!(!route.can_link(&map, &ports, pos(0, 0), pos(6, 0)));
    assert!(route.can_link(&map, &ports, pos(3, 0), pos(0, 0)));
}

#[test]
fn paths_avoid_the_waypoints_in_use() {
    let mut map = Vec::new();
    for y in 0..2 {
        for x in 0..2 {
            map.push(Tile::new(pos(x, y), TileKind::Water));
        }
    }
    let used = ways(&[(1, 0)]);
    let mut route = Route::new();
    route.add_link(&map, &[], &used, pos(0, 0), pos(1, 1), Vec::new());
    assert_eq!(route.initial_path(), ways(&[(0, 0), (0, 1), (1, 1)]));
}

#[test]
fn route_contains_its_waypoints() {
    let (map, ports) = coast();
    let mut route = Route::new();
    route.add_link(&map, &ports, &[], pos(0, 0), pos(3, 0), Vec::new());
    route.add_link(&map, &ports, &[], pos(3, 0), pos(6, 0), Vec::new());
    assert!(route.contains(way(0, 0)));
    assert!(route.contains(way(5, 0)));
    assert!(!route.contains(way(7, 0)));
    assert_eq!(route.path(way(1, 0)), ways(&[(0, 0), (1, 0), (2, 0), (3, 0)]));
    assert_eq!(route.path(way(5, 0)), ways(&[(3, 0), (4, 0), (5, 0), (6, 0)]));
    // A port between two paths belongs to the path that leads to it.
    assert_eq!(route.path(way(3, 0)), ways(&[(0, 0), (1, 0), (2, 0), (3, 0)]));
}

#[test]
fn ships_join_and_leave_a_route() {
    let (map, ports) = coast();
    let mut route = Route::new();
    route.add_link(&map, &ports, &[], pos(0, 0), pos(3, 0), Vec::new());
    let first = Ship::new(way(0, 0), route.initial_path());
    let second = Ship::new(way(1, 0), route.initial_path());
    route.add_ship(first.clone());
    route.add_ship(second.clone());
    assert_eq!(route.ships(), &[first.clone(), second.clone()]);
    route.ships_mut()[0].try_load(Color::Red);
    assert_eq!(route.ships()[0].cargo(), Some(Color::Red));
    assert_eq!(route.ships().len(), 2);
    let removed = route.remove_ships();
    assert_eq!(removed.len(), 2);
    assert_eq!(removed[1], second);
    assert_eq!(route.ships().len(), 0);
    assert_eq!(route.ports(), vec![pos(0, 0), pos(3, 0)]);
}

#[test]
fn ships_are_handed_the_next_path_as_they_arrive() {
    let (map, ports) = coast();
    let mut route = Route::new();
    route.add_link(&map, &ports, &[], pos(0, 0), pos(3, 0), Vec::new());
    route.add_link(&map, &ports, &[], pos(3, 0), pos(6, 0), Vec::new());
    let far = Ship::new(way(0, 0), route.initial_path());
    assert_eq!(route.upcoming_path(&far), None);
    let near = Ship::new(way(2, 0), route.initial_path());
    assert_eq!(route.upcoming_path(&near), Some(ways(&[(3, 0), (4, 0), (5, 0), (6, 0)])));
    let last_leg = Ship::new(way(5, 0), route.next_path(pos(3, 0)).expect("second path"));
    assert_eq!(route.upcoming_path(&last_leg), None);
}

#[test]
fn ships_sail_from_path_to_path_and_back() {
    let (map, ports) = coast();
    let mut route = Route::new();
    route.add_link(&map, &ports, &[], pos(0, 0), pos(3, 0), Vec::new());
    route.add_link(&map, &ports, &[], pos(3, 0), pos(6, 0), Vec::new());
    route.add_ship(Ship::new(way(0, 0), route.initial_path()));
    let mut visited = vec![route.ships()[0].position()];
    let mut turned = Vec::new();
    for _ in 0..40 {
        assert!(route.can_update_ships(&[true]));
        route.update_ships(1_000, &[true]);
        let ship = &route.ships()[0];
        if visited[visited.len() - 1] != ship.position() {
            visited.push(ship.position());
            turned.push(ship.reverse());
        }
    }
    let there: Vec<Waypoint> = (0..7).map(|x| way(x, 0)).collect();
    let back: Vec<Waypoint> = (0..6).rev().map(|x| way(x, 0)).collect();
    assert_eq!(&visited[0..7], &there[..]);
    assert_eq!(&visited[7..13], &back[..]);
    assert_eq!(&visited[13..16], &there[1..4]);
    // The ship turns at the ends of the route, and only there.
    assert_eq!(&turned[0..5], &[false; 5]);
    assert_eq!(&turned[5..11], &[true; 6]);
    assert_eq!(&turned[11..14], &[false; 3]);
}

#[test]
fn update_needs_a_flag_for_each_ship() {
    let (map, ports) = coast();
    let mut route = Route::new();
    route.add_link(&map, &ports, &[], pos(0, 0), pos(3, 0), Vec::new());
    route.add_ship(Ship::new(way(0, 0), route.initial_path()));
    assert!(!route.can_update_ships(&[]));
    assert!(!route.can_update_ships(&[true, false]));
    assert!(route.can_update_ships(&[false]));
    // A ship at the end of its path, bound forward, has nowhere to sail.
    route.add_ship(Ship::new(way(3, 0), route.initial_path()));
    assert!(!route.can_update_ships(&[false, false]));
}

#[test]
fn ships_in_dock_trade_with_their_port() {
    let (map, ports) = coast();
    let mut route = Route::new();
    route.add_link(&map, &ports, &[], pos(0, 0), pos(3, 0), Vec::new());
    route.add_ship(Ship::new(way(2, 0), route.initial_path()));
    route.add_ship(Ship::new(way(0, 0), route.initial_path()));
    route.update_ships(16, &[true, false]);
    assert!(route.ships()[0].is_docked());
    assert!(route.docked_at_ports(&ports));
    // The first ship lies at the port that exports blue; the second sails.
    assert_eq!(route.trade_docked(&ports), vec![Some(Trade::Loading(Color::Blue)), None]);
    assert_eq!(route.ships()[0].cargo(), Some(Color::Blue));
    assert_eq!(route.ships()[1].cargo(), None);
    assert_eq!(route.trade_docked(&ports), vec![Some(Trade::Loading(Color::Blue)), None]);

    // Back at the first port, which imports red, blue goes to waste.
    route.update_ships(999, &[true, false]);
    for _ in 0..3 {
        route.update_ships(999, &[true, false]);
    }
    assert_eq!(route.ships()[0].position(), way(0, 0));
    assert!(route.ships()[0].is_docked());
    let trades = route.trade_docked(&ports);
    assert_eq!(trades, vec![Some(Trade::Discarded(Color::Blue)), None]);
    assert_eq!(delivered(&trades), Vec::<Color>::new());
    assert_eq!(route.trade_docked(&ports), vec![Some(Trade::Loading(Color::Green)), None]);

    // Green is what the second port imports: a delivery.
    route.update_ships(999, &[true, false]);
    for _ in 0..3 {
        route.update_ships(999, &[true, false]);
    }
    assert_eq!(route.ships()[0].position(), way(3, 0));
    let trades = route.trade_docked(&ports);
    assert_eq!(trades, vec![Some(Trade::Delivered(Color::Green)), None]);
    assert_eq!(delivered(&trades), vec![Color::Green]);
}

#[test]
fn docked_ships_off_ports_are_found() {
    let (map, ports) = coast();
    let mut route = Route::new();
    route.add_link(&map, &ports, &[], pos(0, 0), pos(3, 0), Vec::new());
    route.add_ship(Ship::new(way(2, 0), route.initial_path()));
    route.update_ships(16, &[true]);
    assert!(route.docked_at_ports(&ports));
    assert!(!route.docked_at_ports(&ports[0..1]));
    assert!(!route.docked_at_ports(&[]));
}

#[test]
fn deliveries_are_picked_in_order() {
    let trades = vec![
        Some(Trade::Delivered(Color::Red)),
        None,
        Some(Trade::Loading(Color::Blue)),
        Some(Trade::Discarded(Color::Green)),
        Some(Trade::Delivered(Color::Blue)),
    ];
    assert_eq!(delivered(&trades), vec![Color::Red, Color::Blue]);
}

#[test]
fn first_port_at_a_position_is_found() {
    let ports = vec![
        Port::with_colors(pos(1, 1), Color::Red, Color::Blue),
        Port::with_colors(pos(2, 2), Color::Blue, Color::Green),
        Port::with_colors(pos(1, 1), Color::Green, Color::Red),
    ];
    assert_eq!(find_port(&ports, pos(1, 1)), Some(0));
    assert_eq!(find_port(&ports, pos(2, 2)), Some(1));
    assert_eq!(find_port(&ports, pos(3, 3)), None);
}

#[test]
fn paths_are_copied() {
    let path = ways(&[(0, 0), (1, 0)]);
    assert_eq!(copy_path(&path), path);
    assert_eq!(copy_path(&Vec::new()), Vec::<Waypoint>::new());
}
