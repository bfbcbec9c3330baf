//! Visibility engine checks: the observer's own cell, full view, occlusion
//! and memoization.
use asterion::{Direction, Maze, MazeGenerationAlgorithm, MazeImageStyle, MazeTopology, View};

fn open_corridor_maze(id: usize) -> Maze {
    // A 4x1 ladder cell grid rasterizes to a 20x6 pixel maze whose middle
    // row pair (y = 2, 3) is carved completely open by the spanning tree and
    // the two door corridors.
    Maze::new(
        id,
        0,
        4,
        1,
        Some(2),
        Some(2),
        MazeGenerationAlgorithm::DepthFirstSearch,
        MazeTopology::Orthogonal,
        MazeImageStyle::Straight,
    )
}

#[test]
fn observer_sees_its_own_cell() {
    let mut maze = open_corridor_maze(1);
    assert!(maze.is_valid_position((2, 2)));
    for direction in [
        Direction::North,
        Direction::East,
        Direction::South,
        Direction::West,
    ] {
        let seen = maze.get_and_cache_visible_positions(
            (2, 2),
            direction,
            View::Cone { radius: 7 },
        );
        assert!(seen.contains(2, 2));
        let seen = maze.get_and_cache_visible_positions(
            (2, 2),
            direction,
            View::Plane { radius: 8 },
        );
        assert!(seen.contains(2, 2));
        let seen = maze.get_and_cache_visible_positions(
            (2, 2),
            direction,
            View::Circle { radius: 9 },
        );
        assert!(seen.contains(2, 2));
    }
}

#[test]
fn full_view_equals_the_valid_cell_set() {
    let mut maze = open_corridor_maze(1);
    let seen = maze.get_and_cache_visible_positions((2, 2), Direction::North, View::Full);
    for y in 0..maze.px_height() {
        for x in 0..maze.px_width() {
            assert_eq!(seen.contains(x, y), maze.is_valid_position((x, y)));
        }
    }
}

#[test]
fn a_wall_is_seen_but_not_seen_through() {
    let mut maze = open_corridor_maze(1);
    // The corridor rows are 2 and 3; row 4 is wall. Looking south from
    // (2, 2), the wall cell (2, 4) blocks the line of sight to (2, 5).
    assert!(!maze.is_valid_position((2, 4)));
    let seen = maze.get_and_cache_visible_positions(
        (2, 2),
        Direction::South,
        View::Circle { radius: 5 },
    );
    assert!(seen.contains(2, 4), "the wall itself is visible");
    assert!(!seen.contains(2, 5), "nothing behind the wall is visible");
}

#[test]
fn compute_and_cache_is_idempotent() {
    let mut maze = open_corridor_maze(1);
    let first = maze.get_and_cache_visible_positions(
        (3, 3),
        Direction::East,
        View::Cone { radius: 7 },
    );
    let second = maze.get_and_cache_visible_positions(
        (3, 3),
        Direction::East,
        View::Cone { radius: 7 },
    );
    assert!(first.same_set(&second));
    assert!(maze.is_cached((3, 3), Direction::East, View::Cone { radius: 7 }));
    let read_back = maze.get_cached_visible_positions(
        (3, 3),
        Direction::East,
        View::Cone { radius: 7 },
    );
    assert!(first.same_set(&read_back));
}
