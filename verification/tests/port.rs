use hansa::color::Color;
use hansa::geometry::Position;
use hansa::port::{is_valid_arrangement, recolor, redraw, update_port_colors, Port, Redraw};
use rand::rngs::StdRng;
use rand::SeedableRng;

fn harbour(x: i32, import: Color, export: Color) -> Port {
    Port::with_colors(Position::new(x, 0), import, export)
}

fn ring() -> Vec<Port> {
    vec![
        harbour(0, Color::Blue, Color::Green),
        harbour(1, Color::Green, Color::Red),
        harbour(2, Color::Red, Color::Blue),
    ]
}

#[test]
fn port_keeps_what_it_is_given() {
    let port = Port::with_colors(Position::new(4, 5), Color::Red, Color::Green);
    assert_eq!(port.position(), Position::new(4, 5));
    assert_eq!(port.import(), Color::Red);
    assert_eq!(port.export(), Color::Green);
}

#[test]
fn new_port_imports_and_exports_different_colours() {
    let mut gen = StdRng::from_seed([3; 32]);
    for x in 0..50 {
        let port = Port::new(Position::new(x, 1), &mut gen);
        assert_eq!(port.position(), Position::new(x, 1));
        assert_ne!(port.import(), port.export());
    }
}

#[test]
fn sampled_colours_differ_and_vary() {
    let mut gen = StdRng::from_seed([11; 32]);
    let mut seen = Vec::new();
    for _ in 0..200 {
        let (import, export) = Port::sample_colors(&mut gen);
        assert_ne!(import, export);
        if !seen.contains(&(import, export)) {
            seen.push((import, export));
        }
    }
    // The draw is no fixed pair: every ordered pair of colours turns up.
    assert_eq!(seen.len(), 6);
}

#[test]
fn ring_of_three_is_a_valid_arrangement() {
    assert!(is_valid_arrangement(&ring()));
}

#[test]
fn port_that_imports_its_export_spoils_the_arrangement() {
    let mut ports = ring();
    ports.push(harbour(3, Color::Red, Color::Red));
    assert!(!is_valid_arrangement(&ports));
}

#[test]
fn arrangement_needs_every_colour_on_both_sides() {
    assert!(!is_valid_arrangement(&[]));
    assert!(!is_valid_arrangement(&ring()[0..2]));
    let no_red_export = vec![
        harbour(0, Color::Blue, Color::Green),
        harbour(1, Color::Green, Color::Blue),
        harbour(2, Color::Red, Color::Blue),
    ];
    assert!(!is_valid_arrangement(&no_red_export));
    let no_red_import = vec![
        harbour(0, Color::Blue, Color::Green),
        harbour(1, Color::Green, Color::Red),
        harbour(2, Color::Green, Color::Blue),
    ];
    assert!(!is_valid_arrangement(&no_red_import));
}

#[test]
fn more_ports_than_colours_may_repeat_colours() {
    let mut ports = ring();
    ports.push(harbour(3, Color::Blue, Color::Green));
    assert!(is_valid_arrangement(&ports));
}

#[test]
fn recolouring_tells_whether_anything_changed() {
    let mut ports = ring();
    assert!(!recolor(&mut ports, 1, Color::Green, Color::Red));
    assert_eq!(ports, ring());
    assert!(recolor(&mut ports, 1, Color::Green, Color::Blue));
    assert_eq!(ports[1], harbour(1, Color::Green, Color::Blue));
    assert_eq!(ports[0], ring()[0]);
    assert_eq!(ports[2], ring()[2]);
    assert!(recolor(&mut ports, 1, Color::Red, Color::Blue));
    assert_eq!(ports[1], harbour(1, Color::Red, Color::Blue));
}

#[test]
fn reshuffle_ends_in_a_valid_arrangement() {
    for seed in 0..20u8 {
        let mut gen = StdRng::from_seed([seed; 32]);
        let mut ports = vec![
            harbour(0, Color::Blue, Color::Green),
            harbour(1, Color::Blue, Color::Green),
            harbour(2, Color::Blue, Color::Green),
        ];
        let before = ports.clone();
        let changed = update_port_colors(&mut ports, &mut gen, 100_000)
            .expect("a valid arrangement turns up in time");
        assert!(is_valid_arrangement(&ports));
        assert!(!changed.is_empty());
        for (i, port) in ports.iter().enumerate() {
            assert_eq!(port.position(), before[i].position());
            assert_ne!(port.import(), port.export());
            if !changed.contains(&i) {
                assert_eq!(*port, before[i]);
            }
        }
        for place in changed {
            assert!(place < ports.len());
        }
        // Three ports and three colours: each colour is imported once and
        // exported once.
        for color in Color::values() {
            assert_eq!(ports.iter().filter(|port| port.import() == color).count(), 1);
            assert_eq!(ports.iter().filter(|port| port.export() == color).count(), 1);
        }
    }
}

#[test]
fn reshuffle_of_a_valid_arrangement_changes_it() {
    let mut gen = StdRng::from_seed([5; 32]);
    let mut ports = ring();
    let changed = update_port_colors(&mut ports, &mut gen, 100_000);
    assert!(changed.is_some());
    assert!(is_valid_arrangement(&ports));
    assert_ne!(ports, ring());
}

#[test]
fn reshuffle_picks_different_ports() {
    let mut picked = Vec::new();
    for seed in 0..40u8 {
        let mut gen = StdRng::from_seed([seed; 32]);
        let mut ports = ring();
        if let Some(changed) = update_port_colors(&mut ports, &mut gen, 100_000) {
            for place in changed {
                if !picked.contains(&place) {
                    picked.push(place);
                }
            }
        }
    }
    picked.sort();
    assert_eq!(picked, vec![0, 1, 2]);
}

#[test]
fn reshuffle_without_draws_or_ports_changes_nothing() {
    let mut gen = StdRng::from_seed([9; 32]);
    let mut ports = ring();
    assert_eq!(update_port_colors(&mut ports, &mut gen, 0), None);
    assert_eq!(ports, ring());
    let mut none: Vec<Port> = Vec::new();
    assert_eq!(update_port_colors(&mut none, &mut gen, 1_000), None);
}

#[test]
fn reshuffle_that_cannot_succeed_leaves_the_ports_alone() {
    // Two ports cannot import three colours.
    let mut gen = StdRng::from_seed([13; 32]);
    let mut ports = ring()[0..2].to_vec();
    assert_eq!(update_port_colors(&mut ports, &mut gen, 500), None);
    assert_eq!(ports, ring()[0..2].to_vec());
}

#[test]
fn each_draw_tells_what_it_came_to() {
    let mut ports = vec![
        harbour(0, Color::Blue, Color::Green),
        harbour(1, Color::Green, Color::Red),
        harbour(2, Color::Green, Color::Blue),
    ];
    // The port has these colours already.
    assert_eq!(redraw(&mut ports, 0, Color::Blue, Color::Green), Redraw::Same);
    // Red is still imported nowhere.
    assert_eq!(redraw(&mut ports, 0, Color::Blue, Color::Red), Redraw::Changed);
    assert_eq!(ports[0], harbour(0, Color::Blue, Color::Red));
    assert_eq!(redraw(&mut ports, 0, Color::Blue, Color::Green), Redraw::Changed);
    // With red imported by the third port, every colour is on both sides.
    assert_eq!(redraw(&mut ports, 2, Color::Red, Color::Blue), Redraw::Settled);
    assert_eq!(ports, ring());
}
