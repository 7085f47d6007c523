use hansa::color::Color;
use hansa::geometry::Position;
use hansa::ship::{lies_on, Ship, Trade, DOCK_TIME};
use hansa::waypoint::Waypoint;

fn wp(x: i32, y: i32) -> Waypoint {
    Waypoint::from(Position::new(x, y))
}

fn three_waypoints() -> Vec<Waypoint> {
    vec![wp(0, 0), wp(1, 0), wp(2, 0)]
}

#[test]
fn new_ship_sails_forward_out_of_dock_without_cargo() {
    let ship = Ship::new(wp(0, 0), three_waypoints());
    assert_eq!(ship.position(), wp(0, 0));
    assert!(!ship.reverse());
    assert!(!ship.is_docked());
    assert_eq!(ship.docked(), 0);
    assert_eq!(ship.cargo(), None);
    assert_eq!(ship.path(), &three_waypoints());
    assert!(ship.is_on_path());
}

#[test]
fn next_waypoint_follows_the_direction() {
    let ship = Ship::new(wp(1, 0), three_waypoints());
    assert_eq!(ship.next_waypoint(), Some(wp(2, 0)));
    let at_end = Ship::new(wp(2, 0), three_waypoints());
    assert_eq!(at_end.next_waypoint(), None);
}

#[test]
fn arriving_and_leaving() {
    let at_start = Ship::new(wp(0, 0), three_waypoints());
    assert!(at_start.is_leaving());
    assert!(!at_start.is_arriving());
    let in_the_middle = Ship::new(wp(1, 0), three_waypoints());
    assert!(!in_the_middle.is_leaving());
    assert!(in_the_middle.is_arriving());
    let at_end = Ship::new(wp(2, 0), three_waypoints());
    assert!(!at_end.is_leaving());
    assert!(at_end.is_arriving());
}

#[test]
fn arriving_on_a_short_path() {
    let ship = Ship::new(wp(0, 0), vec![wp(0, 0), wp(1, 0)]);
    assert!(ship.is_arriving());
    assert!(ship.is_leaving());
    let alone = Ship::new(wp(0, 0), vec![wp(0, 0)]);
    assert!(alone.is_arriving());
    assert!(alone.is_leaving());
    assert_eq!(alone.next_waypoint(), None);
}

#[test]
fn ship_reverses_once_at_the_end_of_its_route() {
    let mut ship = Ship::new(wp(0, 0), three_waypoints());
    ship.update(16, true, None);
    assert_eq!(ship.position(), wp(1, 0));
    assert!(!ship.reverse());
    assert!(!ship.is_docked());
    assert_eq!(ship.next_waypoint(), Some(wp(2, 0)));

    ship.update(16, true, None);
    assert_eq!(ship.position(), wp(2, 0));
    assert!(ship.is_docked());
    assert_eq!(ship.docked(), DOCK_TIME);
    assert!(ship.reverse());
    assert_eq!(ship.next_waypoint(), Some(wp(1, 0)));

    // Ticks in dock neither move the ship nor turn it again.
    ship.update(500, true, None);
    assert!(ship.is_docked());
    assert_eq!(ship.docked(), 499);
    assert!(ship.reverse());
    assert_eq!(ship.position(), wp(2, 0));
    ship.update(500, true, None);
    assert!(!ship.is_docked());
    assert!(ship.reverse());
    assert_eq!(ship.position(), wp(2, 0));

    // Under sail again, the ship makes for the second-to-last waypoint.
    assert_eq!(ship.next_waypoint(), Some(wp(1, 0)));
    ship.update(16, false, None);
    assert_eq!(ship.position(), wp(2, 0));
    assert!(ship.reverse());
    ship.update(16, true, None);
    assert_eq!(ship.position(), wp(1, 0));
    assert!(ship.reverse());
    assert!(!ship.is_docked());

    ship.update(16, true, None);
    assert_eq!(ship.position(), wp(0, 0));
    assert!(!ship.reverse());
    assert!(ship.is_docked());
    assert_eq!(ship.next_waypoint(), Some(wp(1, 0)));
}

#[test]
fn dock_timer_stops_at_zero() {
    let mut ship = Ship::new(wp(1, 0), three_waypoints());
    ship.update(0, true, None);
    assert_eq!(ship.docked(), 999);
    ship.wait(998);
    assert_eq!(ship.docked(), 1);
    assert!(ship.is_docked());
    ship.wait(5_000);
    assert_eq!(ship.docked(), 0);
    assert!(!ship.is_docked());
    ship.wait(1);
    assert_eq!(ship.docked(), 0);
}

#[test]
fn ship_under_sail_that_has_not_reached_its_target_stays() {
    let mut ship = Ship::new(wp(0, 0), three_waypoints());
    ship.update(1_000, false, Some(vec![wp(5, 5), wp(6, 5)]));
    assert_eq!(ship, Ship::new(wp(0, 0), three_waypoints()));
}

#[test]
fn ship_takes_over_the_next_path_at_the_end() {
    let mut ship = Ship::new(wp(1, 0), three_waypoints());
    let next = vec![wp(2, 0), wp(2, 1), wp(2, 2)];
    assert!(ship.can_arrive(&Some(next.clone())));
    let onward = ship.arrive(Some(next.clone()));
    assert_eq!(onward, None);
    assert_eq!(ship.position(), wp(2, 0));
    assert_eq!(ship.path(), &next);
    assert!(!ship.reverse());
    assert!(ship.is_docked());
    assert_eq!(ship.next_waypoint(), Some(wp(2, 1)));
}

#[test]
fn ship_on_its_way_back_takes_over_the_path_before() {
    let mut ship = Ship::new(wp(1, 0), three_waypoints());
    ship.update(0, true, None);
    ship.wait(DOCK_TIME);
    ship.update(0, true, None);
    assert_eq!(ship.position(), wp(1, 0));
    assert!(ship.reverse());
    let before = vec![wp(0, 2), wp(0, 1), wp(0, 0)];
    ship.update(0, true, Some(before.clone()));
    assert_eq!(ship.position(), wp(0, 0));
    assert_eq!(ship.path(), &before);
    assert!(ship.reverse());
    assert!(ship.is_docked());
    assert_eq!(ship.next_waypoint(), Some(wp(0, 1)));
}

#[test]
fn empty_next_path_makes_the_ship_turn() {
    let mut ship = Ship::new(wp(1, 0), three_waypoints());
    ship.update(0, true, Some(Vec::new()));
    assert_eq!(ship.position(), wp(2, 0));
    assert_eq!(ship.path(), &three_waypoints());
    assert!(ship.reverse());
    assert!(ship.is_docked());
}

#[test]
fn next_path_is_left_alone_while_the_path_goes_on() {
    let mut ship = Ship::new(wp(0, 0), three_waypoints());
    let onward = ship.arrive(Some(vec![wp(7, 7), wp(8, 7)]));
    assert_eq!(onward, Some(wp(2, 0)));
    assert_eq!(ship.position(), wp(1, 0));
    assert_eq!(ship.path(), &three_waypoints());
    assert!(!ship.is_docked());
}

#[test]
fn arrival_is_checked() {
    let ship = Ship::new(wp(1, 0), three_waypoints());
    assert!(ship.can_arrive(&None));
    assert!(ship.can_arrive(&Some(Vec::new())));
    assert!(ship.can_arrive(&Some(vec![wp(2, 0), wp(3, 0)])));
    // The next path must hold the waypoint reached, and lead on from it.
    assert!(!ship.can_arrive(&Some(vec![wp(5, 5), wp(6, 5)])));
    assert!(!ship.can_arrive(&Some(vec![wp(3, 0), wp(2, 0)])));
    let at_end = Ship::new(wp(2, 0), three_waypoints());
    assert!(!at_end.can_arrive(&None));
}

#[test]
fn cargo_round_trip() {
    let mut ship = Ship::new(wp(1, 0), three_waypoints());
    ship.update(0, true, None);
    assert!(ship.is_docked());
    assert_eq!(ship.cargo(), None);

    ship.try_load(Color::Green);
    assert_eq!(ship.cargo(), Some(Color::Green));
    // Cargo does not leave the ship where it was loaded.
    assert_eq!(ship.try_unload(), None);
    assert_eq!(ship.cargo(), Some(Color::Green));

    ship.wait(DOCK_TIME);
    ship.update(0, true, None);
    ship.update(0, true, None);
    assert_eq!(ship.position(), wp(0, 0));
    assert!(ship.is_docked());

    assert_eq!(ship.try_unload(), Some(Color::Green));
    assert_eq!(ship.cargo(), None);
    assert_eq!(ship.try_unload(), None);
    assert_eq!(ship.cargo(), None);
}

#[test]
fn loading_does_nothing_on_a_loaded_ship() {
    let mut ship = Ship::new(wp(0, 0), three_waypoints());
    ship.try_load(Color::Red);
    ship.try_load(Color::Blue);
    assert_eq!(ship.cargo(), Some(Color::Red));
}

#[test]
fn trading_unloads_first_and_loads_next() {
    let mut ship = Ship::new(wp(0, 0), three_waypoints());
    // Nothing on board: the ship loads the export.
    assert_eq!(ship.trade(Color::Red, Color::Green), Trade::Loading(Color::Green));
    assert_eq!(ship.cargo(), Some(Color::Green));
    // At the same port the cargo stays.
    assert_eq!(ship.trade(Color::Red, Color::Green), Trade::Loading(Color::Green));
    assert_eq!(ship.cargo(), Some(Color::Green));
    ship.update(0, true, None);
    // Elsewhere, a port that imports green takes the delivery.
    assert_eq!(ship.trade(Color::Green, Color::Blue), Trade::Delivered(Color::Green));
    assert_eq!(ship.cargo(), None);
    assert_eq!(ship.trade(Color::Green, Color::Blue), Trade::Loading(Color::Blue));
    assert_eq!(ship.cargo(), Some(Color::Blue));
    ship.update(0, true, None);
    // A port with no use for blue lets it go to waste.
    assert_eq!(ship.trade(Color::Red, Color::Green), Trade::Discarded(Color::Blue));
    assert_eq!(ship.cargo(), None);
}

#[test]
fn waypoints_are_found_on_paths() {
    assert!(lies_on(&three_waypoints(), wp(2, 0)));
    assert!(!lies_on(&three_waypoints(), wp(3, 0)));
    assert!(!lies_on(&Vec::new(), wp(0, 0)));
}

#[test]
fn ship_goes_by_the_first_place_of_its_waypoint() {
    let path = vec![wp(0, 0), wp(1, 0), wp(0, 0), wp(2, 0)];
    let ship = Ship::new(wp(0, 0), path);
    assert_eq!(ship.next_waypoint(), Some(wp(1, 0)));
    assert!(ship.is_leaving());
}
