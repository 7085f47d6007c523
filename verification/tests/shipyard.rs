use hansa::geometry::Position;
use hansa::ship::Ship;
use hansa::shipbuilder::ShipBuilder;
use hansa::shipyard::{Shipyard, FLEET_SIZE};
use hansa::waypoint::Waypoint;

#[test]
fn new_shipyard_holds_three_ships() {
    let yard = Shipyard::new();
    assert_eq!(FLEET_SIZE, 3);
    assert_eq!(yard.available(), 3);
    assert!(yard.is_available());
}

#[test]
fn building_takes_ships_until_none_is_left() {
    let mut yard = Shipyard::new();
    assert_eq!(yard.build(), Some(ShipBuilder::new()));
    assert_eq!(yard.available(), 2);
    assert!(yard.build().is_some());
    assert!(yard.build().is_some());
    assert_eq!(yard.available(), 0);
    assert!(!yard.is_available());
    assert_eq!(yard.build(), None);
    assert_eq!(yard.available(), 0);
}

#[test]
fn builders_and_ships_come_back() {
    let mut yard = Shipyard::new();
    let builder = yard.build().expect("a full yard");
    assert_eq!(yard.available(), 2);
    yard.add_builder(builder);
    assert_eq!(yard.available(), 3);
    let waypoint = Waypoint::from(Position::new(0, 0));
    yard.add_ship(Ship::new(waypoint, vec![waypoint]));
    assert_eq!(yard.available(), 4);
}

#[test]
fn ships_in_yard_and_in_hand_are_conserved() {
    let mut yard = Shipyard::new();
    let mut in_hand: Vec<ShipBuilder> = Vec::new();
    let total = yard.available() + in_hand.len();
    for round in 0..10 {
        if round % 3 == 2 {
            if let Some(builder) = in_hand.pop() {
                yard.add_builder(builder);
            }
        } else if let Some(builder) = yard.build() {
            in_hand.push(builder);
        }
        assert_eq!(yard.available() + in_hand.len(), total);
    }
}
