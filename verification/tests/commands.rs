use hansa::color::Color;
use hansa::commands::Commit;
use hansa::fleet::Move;
use hansa::geometry::Position;
use hansa::port::Port;
use hansa::routebuilder::RouteBuilder;
use hansa::shape::RouteShape;
use hansa::shipbuilder::ShipBuilder;
use hansa::tile::{Tile, TileKind};
use hansa::waypoint::Waypoint;
use hansa::world::World;

fn cell(x: i32, y: i32) -> Position {
    Position::new(x, y)
}

/// Two ports on open water, and a third behind land: `P~~P#P`.
fn straits() -> World {
    let mut tiles = Vec::new();
    let mut ports = Vec::new();
    for (x, kind) in "P~~P#P".chars().enumerate() {
        let position = cell(x as i32, 0);
        if kind == '~' {
            tiles.push(Tile::new(position, TileKind::Water));
        } else {
            tiles.push(Tile::new(position, TileKind::Land));
        }
        if kind == 'P' {
            ports.push(Port::with_colors(position, Color::Red, Color::Blue));
        }
    }
    World::new(tiles, ports, Vec::new())
}

fn ships_at_sea(world: &World) -> usize {
    world.routes().iter().map(|(_, route)| route.ships().len()).sum()
}

#[test]
fn route_begins_at_an_open_port() {
    let world = straits();
    let builder = world.begin_route(RouteShape::Plus, cell(0, 0)).expect("a port");
    assert_eq!(builder.from(), &cell(0, 0));
    assert_eq!(builder.to(), &cell(0, 0));
    assert_eq!(builder.path(), &None);
    assert!(world.begin_route(RouteShape::Plus, cell(1, 0)).is_none());
    assert!(world.begin_route(RouteShape::Plus, cell(9, 9)).is_none());
}

#[test]
fn route_goes_on_only_from_its_last_port() {
    let mut world = straits();
    world.add_route(RouteShape::Plus, cell(0, 0), cell(3, 0), Vec::new());
    assert!(world.begin_route(RouteShape::Plus, cell(0, 0)).is_none());
    assert!(world.begin_route(RouteShape::Plus, cell(3, 0)).is_some());
    assert!(world.begin_route(RouteShape::Star, cell(0, 0)).is_some());
}

#[test]
fn finished_route_is_added() {
    let mut world = straits();
    let mut builder = RouteBuilder::new(cell(0, 0));
    builder.update(cell(3, 0), &world);
    assert_eq!(world.commit_route(RouteShape::Cross, &builder, cell(3, 0)), Commit::Added);
    assert_eq!(world.routes().len(), 1);
    assert_eq!(world.routes()[0].0, RouteShape::Cross);
    assert_eq!(world.routes()[0].1.ports(), vec![cell(0, 0), cell(3, 0)]);
}

#[test]
fn route_is_declined_where_it_may_not_end() {
    let mut world = straits();
    let mut builder = RouteBuilder::new(cell(0, 0));
    builder.update(cell(3, 0), &world);
    // No port at the end.
    assert_eq!(world.commit_route(RouteShape::Plus, &builder, cell(2, 0)), Commit::Declined);
    // The end is the start.
    assert_eq!(world.commit_route(RouteShape::Plus, &builder, cell(0, 0)), Commit::Declined);
    // No path where no walk leads.
    let mut stranded = RouteBuilder::new(cell(0, 0));
    stranded.update(cell(5, 0), &world);
    assert_eq!(stranded.path(), &None);
    assert_eq!(world.commit_route(RouteShape::Plus, &stranded, cell(5, 0)), Commit::Declined);
    // No path yet.
    let fresh = RouteBuilder::new(cell(0, 0));
    assert_eq!(world.commit_route(RouteShape::Plus, &fresh, cell(3, 0)), Commit::Declined);
    assert_eq!(world.routes().len(), 0);

    assert_eq!(world.commit_route(RouteShape::Plus, &builder, cell(3, 0)), Commit::Added);
    // The route calls at that port already.
    assert_eq!(world.commit_route(RouteShape::Plus, &builder, cell(3, 0)), Commit::Declined);
    assert_eq!(world.routes()[0].1.ports().len(), 2);
}

#[test]
fn route_that_the_map_cannot_hold_is_told() {
    let mut world = straits();
    world.add_route(RouteShape::Plus, cell(3, 0), cell(0, 0), Vec::new());
    // A link from the port behind the land goes to the front of the chain;
    // the walk from there on does not exist.
    let mut builder = RouteBuilder::new(cell(5, 0));
    builder.update(cell(4, 0), &world);
    builder.update(cell(5, 0), &world);
    assert_eq!(builder.path(), &Some(vec![Waypoint::from(cell(5, 0))]));
    assert!(!world.can_add_route(RouteShape::Plus, cell(5, 0), cell(5, 0)));
    assert_eq!(
        world.commit_route(RouteShape::Plus, &builder, cell(5, 0)),
        Commit::Unreachable
    );
    assert_eq!(world.routes()[0].1.ports(), vec![cell(3, 0), cell(0, 0)]);
}

#[test]
fn recalled_routes_hand_their_ships_to_the_yard() {
    let mut world = straits();
    world.add_route(RouteShape::Plus, cell(0, 0), cell(3, 0), Vec::new());
    for _ in 0..3 {
        let builder = world.shipyard_mut().build().expect("ships in the yard");
        assert!(builder.place_or_return(cell(1, 0), &mut world));
    }
    assert_eq!(world.shipyard().available(), 0);
    assert_eq!(ships_at_sea(&world), 3);

    assert_eq!(world.recall_routes_at(Waypoint::from(cell(4, 0))), 0);
    assert_eq!(ships_at_sea(&world), 3);
    assert_eq!(world.recall_routes_at(Waypoint::from(cell(2, 0))), 3);
    assert_eq!(world.routes().len(), 0);
    assert_eq!(world.shipyard().available(), 3);
}

#[test]
fn ship_that_finds_no_route_goes_back_to_the_yard() {
    let mut world = straits();
    world.add_route(RouteShape::Plus, cell(0, 0), cell(3, 0), Vec::new());
    let builder = world.shipyard_mut().build().expect("ships in the yard");
    assert_eq!(world.shipyard().available(), 2);
    assert!(!builder.place_or_return(cell(5, 0), &mut world));
    assert_eq!(world.shipyard().available(), 3);
    assert_eq!(ships_at_sea(&world), 0);
    let builder = ShipBuilder::new();
    assert!(builder.place_or_return(cell(2, 0), &mut world));
    assert_eq!(world.shipyard().available(), 3);
    assert_eq!(ships_at_sea(&world), 1);
}

#[test]
fn moves_are_told_apart() {
    assert!(matches!(Move::TryPlace(true), Move::TryPlace(true)));
    assert!(!matches!(Move::Build, Move::AddShip));
}
