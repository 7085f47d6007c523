use hansa::audio::SoundEffect;
use hansa::color::Color;
use hansa::config::Config;
use hansa::frontier::lighter;
use hansa::geometry::{OrdPosition, Position};
use hansa::shape::{RouteShape, ShapeSelector};
use hansa::tally::Tally;
use hansa::tile::{Tile, TileKind};
use hansa::time::GameTimer;
use hansa::waypoint::{to_waypoints, Waypoint};
use std::cmp::Ordering;

#[test]
fn color_components() {
    assert_eq!(Color::Blue.rgb(), (72, 133, 237));
    assert_eq!(Color::Green.rgb(), (60, 186, 88));
    assert_eq!(Color::Red.rgb(), (219, 50, 54));
}

#[test]
fn color_values_in_order() {
    assert_eq!(Color::values(), vec![Color::Blue, Color::Green, Color::Red]);
}

#[test]
fn default_config_is_sixty_by_thirty() {
    let config = Config::default();
    assert_eq!(config.scaling, 1);
    assert_eq!(config.grid_width, 60);
    assert_eq!(config.grid_height, 30);
}

#[test]
fn position_holds_its_coordinates() {
    let position = Position::new(3, -4);
    assert_eq!(position.x, 3);
    assert_eq!(position.y, -4);
    assert_eq!(Position::default(), Position::new(0, 0));
}

#[test]
fn position_sum_and_difference() {
    assert_eq!(Position::new(1, 2) + Position::new(10, -20), Position::new(11, -18));
    assert_eq!(Position::new(1, 2) - Position::new(10, -20), Position::new(-9, 22));
}

#[test]
fn adjacency_is_by_grid_steps() {
    let centre = Position::new(5, 5);
    assert!(centre.is_adjacent(centre));
    assert!(centre.is_adjacent(Position::new(5, 4)));
    assert!(centre.is_adjacent(Position::new(6, 5)));
    assert!(centre.is_adjacent(Position::new(5, 6)));
    assert!(centre.is_adjacent(Position::new(4, 5)));
    assert!(!centre.is_adjacent(Position::new(6, 6)));
    assert!(!centre.is_adjacent(Position::new(5, 7)));
}

#[test]
fn adjacency_at_the_rim_of_the_coordinates() {
    let low = Position::new(i32::MIN, i32::MIN);
    let high = Position::new(i32::MAX, i32::MAX);
    assert!(!low.is_adjacent(high));
    assert!(high.is_adjacent(Position::new(i32::MAX - 1, i32::MAX)));
}

#[test]
fn lighter_position_is_the_greater() {
    let near = OrdPosition { position: Position::new(0, 0), weight: 1 };
    let far = OrdPosition { position: Position::new(9, 9), weight: 5 };
    let also_near = OrdPosition { position: Position::new(3, 3), weight: 1 };
    assert_eq!(near.partial_cmp(&far), Some(Ordering::Greater));
    assert_eq!(far.partial_cmp(&near), Some(Ordering::Less));
    assert_eq!(near.partial_cmp(&also_near), Some(Ordering::Equal));
    assert!(near > far);
    assert!(near == also_near);
    assert!(near != far);
    assert!(lighter(&near, &far));
    assert!(!lighter(&far, &near));
    assert!(!lighter(&near, &also_near));
}

#[test]
fn tile_holds_position_and_kind() {
    let tile = Tile::new(Position::new(2, 3), TileKind::Water);
    assert_eq!(tile.kind(), TileKind::Water);
    assert_eq!(tile.position(), Position::new(2, 3));
}

#[test]
fn tile_neighbours_north_east_south_west() {
    let tile = Tile::new(Position::new(2, 3), TileKind::Land);
    assert_eq!(
        tile.neighbors(),
        [
            Position::new(2, 2),
            Position::new(3, 3),
            Position::new(2, 4),
            Position::new(1, 3),
        ]
    );
}

#[test]
fn waypoint_wraps_a_position() {
    let position = Position::new(4, 2);
    let waypoint = Waypoint::from(position);
    assert_eq!(Position::from(waypoint), position);
    assert_eq!(waypoint, Waypoint(position));
    assert_ne!(waypoint, Waypoint::from(Position::new(2, 4)));
}

#[test]
fn positions_turn_into_waypoints_in_order() {
    let positions = vec![Position::new(0, 0), Position::new(1, 0)];
    assert_eq!(
        to_waypoints(&positions),
        vec![Waypoint(Position::new(0, 0)), Waypoint(Position::new(1, 0))]
    );
    assert_eq!(to_waypoints(&Vec::new()), Vec::<Waypoint>::new());
}

#[test]
fn shape_values_in_order() {
    assert_eq!(
        RouteShape::values(),
        vec![RouteShape::Plus, RouteShape::Cross, RouteShape::Star]
    );
}

#[test]
fn selector_starts_with_nothing_selected() {
    let selector = ShapeSelector::new();
    assert_eq!(selector.selected(), None);
    assert_eq!(
        selector.shapes(),
        &[RouteShape::Plus, RouteShape::Cross, RouteShape::Star]
    );
}

#[test]
fn selector_toggles() {
    let mut selector = ShapeSelector::new();
    selector.toggle(1);
    assert_eq!(selector.selected(), Some(RouteShape::Cross));
    selector.toggle(2);
    assert_eq!(selector.selected(), Some(RouteShape::Star));
    selector.toggle(2);
    assert_eq!(selector.selected(), None);
    selector.toggle(0);
    assert_eq!(selector.selected(), Some(RouteShape::Plus));
}

#[test]
fn selector_finds_shapes() {
    let selector = ShapeSelector::new();
    assert_eq!(selector.find(RouteShape::Plus), Some(0));
    assert_eq!(selector.find(RouteShape::Cross), Some(1));
    assert_eq!(selector.find(RouteShape::Star), Some(2));
}

#[test]
fn tally_starts_empty() {
    let tally = Tally::new();
    assert_eq!(tally.get(Color::Blue), 0);
    assert_eq!(tally.get(Color::Green), 0);
    assert_eq!(tally.get(Color::Red), 0);
    assert_eq!(tally.score(), 0);
}

#[test]
fn tally_counts_each_colour_and_scores_the_least() {
    let mut tally = Tally::new();
    tally.update(Color::Red);
    tally.update(Color::Red);
    tally.update(Color::Blue);
    assert_eq!(tally.get(Color::Red), 2);
    assert_eq!(tally.get(Color::Blue), 1);
    assert_eq!(tally.get(Color::Green), 0);
    assert_eq!(tally.score(), 0);
    tally.update(Color::Green);
    assert_eq!(tally.score(), 1);
    tally.update(Color::Green);
    tally.update(Color::Blue);
    assert_eq!(tally.score(), 2);
    let copy = tally.clone();
    assert_eq!(copy.get(Color::Green), 2);
    assert_eq!(copy.score(), 2);
}

#[test]
fn timer_counts_down_to_nothing() {
    let timer = GameTimer::new(1_000, 300_000);
    assert_eq!(timer.time_remaining(1_000), 300_000);
    assert_eq!(timer.time_remaining(201_000), 100_000);
    assert_eq!(timer.time_remaining(301_000), 0);
    assert_eq!(timer.time_remaining(999_000), 0);
}

#[test]
fn game_ends_in_the_last_second() {
    let timer = GameTimer::new(0, 300_000);
    assert!(!timer.has_game_ended(0));
    assert!(!timer.has_game_ended(299_000));
    assert!(timer.has_game_ended(299_001));
    assert!(timer.has_game_ended(300_000));
    assert!(timer.has_game_ended(400_000));
}

#[test]
fn sound_effects_are_told_apart() {
    assert_eq!(SoundEffect::PlaceShip, SoundEffect::PlaceShip);
    assert_ne!(SoundEffect::CreateRoute, SoundEffect::ClickUIButton);
    assert_ne!(SoundEffect::ProgressionStep, SoundEffect::PlaceShip);
}
