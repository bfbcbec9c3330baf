//! Exact values for the small formulas and the randomized generators'
//! guaranteed ranges.
use asterion::{distance_squared, into_direction, movement_recovery_ms, view_for_vision,
    Direction, Maze, View};

#[test]
fn movement_cooldown_formula() {
    assert_eq!(movement_recovery_ms(0), 250);
    assert_eq!(movement_recovery_ms(1), 225);
    assert_eq!(movement_recovery_ms(4), 150);
    assert_eq!(movement_recovery_ms(8), 50);
    assert_eq!(movement_recovery_ms(20), 50);
}

#[test]
fn vision_tier_step_function() {
    assert!(matches!(view_for_vision(0), View::Cone { radius: 6 }));
    assert!(matches!(view_for_vision(2), View::Cone { radius: 8 }));
    assert!(matches!(view_for_vision(3), View::Plane { radius: 8 }));
    assert!(matches!(view_for_vision(4), View::Plane { radius: 9 }));
    assert!(matches!(view_for_vision(5), View::Circle { radius: 9 }));
    assert!(matches!(view_for_vision(7), View::Circle { radius: 11 }));
    assert!(matches!(view_for_vision(8), View::Full));
    assert_eq!(View::Full.radius(), usize::MAX);
    assert_eq!(View::Cone { radius: 7 }.radius(), 7);
}

#[test]
fn squared_distance_and_steps() {
    assert_eq!(distance_squared((0, 0), (3, 4)), 25);
    assert_eq!(distance_squared((5, 5), (5, 5)), 0);
    assert_eq!(distance_squared((7, 2), (4, 6)), 25);

    assert_eq!(into_direction((3, 3), &Direction::North), (3, 2));
    assert_eq!(into_direction((3, 3), &Direction::South), (3, 4));
    assert_eq!(into_direction((3, 3), &Direction::East), (4, 3));
    assert_eq!(into_direction((3, 3), &Direction::West), (2, 3));
    // diagonals hold position, and edges clamp
    assert_eq!(into_direction((3, 3), &Direction::NorthEast), (3, 3));
    assert_eq!(into_direction((0, 0), &Direction::West), (0, 0));
    assert_eq!(into_direction((0, 0), &Direction::North), (0, 0));
}

#[test]
fn random_mazes_stay_within_their_difficulty_band() {
    for id in 0..4usize {
        let maze = Maze::random(id, None);
        assert_eq!(maze.id(), id);
        assert!(maze.width() >= 10 + 2 * (id / 4));
        assert!(maze.width() <= (12 + 2 * (id / 2)).min(32));
        assert!(maze.height() >= 4 + 2 * (id / 4));
        assert!(maze.height() <= (6 + 2 * (id / 2)).min(20));
        assert_eq!(maze.px_width(), 4 * maze.width() + 4);
        assert_eq!(maze.px_height(), 4 * maze.height() + 2);
    }
}
