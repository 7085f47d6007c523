use hansa::config::Config;
use hansa::geometry::Position;
use hansa::mapfile::{build_cells, load_world, parse_map, MapError, HEADER_LEN};
use hansa::tile::{Tile, TileKind};
use rand::rngs::StdRng;
use rand::SeedableRng;

fn file_with(body: &str) -> Vec<u8> {
    let mut bytes = vec![b'#'; HEADER_LEN];
    bytes.extend_from_slice(body.as_bytes());
    bytes
}

fn grid(width: u32) -> Config {
    Config { scaling: 1, grid_width: width, grid_height: 1 }
}

#[test]
fn header_is_fifty_eight_bytes() {
    assert_eq!(HEADER_LEN, 58);
    assert_eq!(parse_map(&vec![b'1'; 57]), Err(MapError::Truncated));
    assert_eq!(parse_map(&[]), Err(MapError::Truncated));
    assert_eq!(parse_map(&vec![b'1'; 58]), Ok(Vec::new()));
}

#[test]
fn header_is_passed_over_whatever_it_holds() {
    let mut bytes = vec![b'\n'; HEADER_LEN];
    bytes.extend_from_slice(b"12\n");
    assert_eq!(parse_map(&bytes), Ok(vec![12]));
}

#[test]
fn numbers_are_read_line_by_line() {
    assert_eq!(parse_map(&file_with("0\n0\n255\n")), Ok(vec![0, 0, 255]));
    assert_eq!(parse_map(&file_with("0\n0\n255")), Ok(vec![0, 0, 255]));
    assert_eq!(parse_map(&file_with("7")), Ok(vec![7]));
    assert_eq!(parse_map(&file_with("1\r\n2\r\n")), Ok(vec![1, 2]));
}

#[test]
fn numbers_may_have_a_sign_and_leading_zeros() {
    assert_eq!(parse_map(&file_with("-5\n+6\n007\n-0\n")), Ok(vec![-5, 6, 7, 0]));
}

#[test]
fn numbers_fill_thirty_two_bits() {
    assert_eq!(
        parse_map(&file_with("2147483647\n-2147483648\n")),
        Ok(vec![i32::MAX, i32::MIN])
    );
    assert_eq!(parse_map(&file_with("2147483648\n")), Err(MapError::Malformed(0)));
    assert_eq!(parse_map(&file_with("1\n-2147483649\n")), Err(MapError::Malformed(1)));
    assert_eq!(
        parse_map(&file_with("99999999999999999999999999\n")),
        Err(MapError::Malformed(0))
    );
}

#[test]
fn first_bad_line_is_named() {
    assert_eq!(parse_map(&file_with("1\n\n3\n")), Err(MapError::Malformed(1)));
    assert_eq!(parse_map(&file_with("\n")), Err(MapError::Malformed(0)));
    assert_eq!(parse_map(&file_with("1\n2\nx\ny\n")), Err(MapError::Malformed(2)));
    assert_eq!(parse_map(&file_with("1 \n")), Err(MapError::Malformed(0)));
    assert_eq!(parse_map(&file_with(" 1\n")), Err(MapError::Malformed(0)));
    assert_eq!(parse_map(&file_with("-\n")), Err(MapError::Malformed(0)));
    assert_eq!(parse_map(&file_with("+\n")), Err(MapError::Malformed(0)));
    assert_eq!(parse_map(&file_with("1-2\n")), Err(MapError::Malformed(0)));
    assert_eq!(parse_map(&file_with("--1\n")), Err(MapError::Malformed(0)));
    assert_eq!(parse_map(&file_with("1\n2\r\r\n")), Err(MapError::Malformed(1)));
    assert_eq!(parse_map(&file_with("1.5\n")), Err(MapError::Malformed(0)));
}

#[test]
fn cells_are_classified_by_their_three_numbers() {
    let values = [0, 0, 255, 0, 0, 0, 10, 20, 30, 255, 0, 0];
    let (tiles, harbours) = build_cells(&values, 2);
    assert_eq!(
        tiles,
        vec![
            Tile::new(Position::new(0, 0), TileKind::Water),
            Tile::new(Position::new(1, 0), TileKind::Land),
            Tile::new(Position::new(0, 1), TileKind::Land),
            Tile::new(Position::new(1, 1), TileKind::Land),
        ]
    );
    assert_eq!(harbours, vec![Position::new(1, 0)]);
}

#[test]
fn cells_fill_the_grid_row_by_row() {
    let mut values = Vec::new();
    for _ in 0..7 {
        values.extend_from_slice(&[0, 0, 255]);
    }
    let (tiles, harbours) = build_cells(&values, 3);
    let positions: Vec<Position> = tiles.iter().map(|tile| tile.position()).collect();
    assert_eq!(
        positions,
        vec![
            Position::new(0, 0),
            Position::new(1, 0),
            Position::new(2, 0),
            Position::new(0, 1),
            Position::new(1, 1),
            Position::new(2, 1),
            Position::new(0, 2),
        ]
    );
    assert!(tiles.iter().all(|tile| tile.kind() == TileKind::Water));
    assert!(harbours.is_empty());
}

#[test]
fn numbers_left_over_make_a_cell_of_land() {
    let (tiles, harbours) = build_cells(&[0, 0, 255, 0, 0], 5);
    assert_eq!(
        tiles,
        vec![
            Tile::new(Position::new(0, 0), TileKind::Water),
            Tile::new(Position::new(1, 0), TileKind::Land),
        ]
    );
    assert!(harbours.is_empty());
    let (tiles, harbours) = build_cells(&[0], 5);
    assert_eq!(tiles, vec![Tile::new(Position::new(0, 0), TileKind::Land)]);
    assert!(harbours.is_empty());
    let (tiles, harbours) = build_cells(&[], 5);
    assert!(tiles.is_empty());
    assert!(harbours.is_empty());
}

#[test]
fn world_is_loaded_with_a_port_on_each_harbour() {
    let bytes = file_with("0\n0\n0\n0\n0\n255\n0\n0\n255\n0\n0\n0\n1\n2\n3\n");
    let mut gen = StdRng::from_seed([2; 32]);
    let world = load_world(&bytes, &grid(4), &mut gen).expect("a good file");
    assert_eq!(world.tiles().len(), 5);
    assert_eq!(world.tiles()[0], Tile::new(Position::new(0, 0), TileKind::Land));
    assert_eq!(world.tiles()[1], Tile::new(Position::new(1, 0), TileKind::Water));
    assert_eq!(world.tiles()[2], Tile::new(Position::new(2, 0), TileKind::Water));
    assert_eq!(world.tiles()[3], Tile::new(Position::new(3, 0), TileKind::Land));
    assert_eq!(world.tiles()[4], Tile::new(Position::new(0, 1), TileKind::Land));
    assert_eq!(world.ports().len(), 2);
    assert_eq!(world.ports()[0].position(), Position::new(0, 0));
    assert_eq!(world.ports()[1].position(), Position::new(3, 0));
    for port in world.ports() {
        assert_ne!(port.import(), port.export());
    }
    assert_eq!(world.routes().len(), 0);
    assert_eq!(world.shipyard().available(), 3);
    assert_eq!(
        world.route(Position::new(0, 0), Position::new(3, 0)),
        Some((
            3,
            vec![
                Position::new(0, 0),
                Position::new(1, 0),
                Position::new(2, 0),
                Position::new(3, 0),
            ]
        ))
    );
}

#[test]
fn loading_fails_as_parsing_does() {
    let mut gen = StdRng::from_seed([2; 32]);
    assert_eq!(load_world(&[1, 2, 3], &grid(4), &mut gen).err(), Some(MapError::Truncated));
    assert_eq!(
        load_world(&file_with("0\n0\nblue\n"), &grid(4), &mut gen).err(),
        Some(MapError::Malformed(2))
    );
}

#[test]
fn loading_needs_a_width() {
    let mut gen = StdRng::from_seed([2; 32]);
    let bytes = file_with("0\n0\n255\n");
    assert_eq!(load_world(&bytes, &grid(0), &mut gen).err(), Some(MapError::NoWidth));
    assert_eq!(load_world(&bytes, &grid(u32::MAX), &mut gen).err(), Some(MapError::NoWidth));
    assert_eq!(
        load_world(&bytes, &grid(0x8000_0000), &mut gen).err(),
        Some(MapError::NoWidth)
    );
    assert!(load_world(&bytes, &grid(0x7fff_ffff), &mut gen).is_ok());
    // A file that cannot be read is told first.
    assert_eq!(
        load_world(&file_with("x\n"), &grid(0), &mut gen).err(),
        Some(MapError::Malformed(0))
    );
}
