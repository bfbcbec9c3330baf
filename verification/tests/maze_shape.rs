//! Structural checks on generated mazes: door pairs and connectivity.
use asterion::{Maze, MazeGenerationAlgorithm, MazeImageStyle, MazeTopology};

fn generate(id: usize, seed: u64, w: usize, h: usize) -> Maze {
    Maze::new(
        id,
        seed,
        w,
        h,
        None,
        None,
        MazeGenerationAlgorithm::DepthFirstSearch,
        MazeTopology::Orthogonal,
        MazeImageStyle::Straight,
    )
}

#[test]
fn entrance_and_exit_are_adjacent_valid_pairs() {
    for seed in [1u64, 7, 42, 1234] {
        let maze = generate(1, seed, 10, 6);
        let px_w = maze.px_width();

        let entrance = maze.entrance_positions().clone();
        assert_eq!(entrance.len(), 2);
        assert_eq!(entrance[0].0, 0);
        assert_eq!(entrance[1].0, 0);
        assert_eq!(entrance[1].1, entrance[0].1 + 1);
        assert!(maze.is_valid_position(entrance[0]));
        assert!(maze.is_valid_position(entrance[1]));

        let exit = maze.exit_positions().clone();
        assert_eq!(exit.len(), 2);
        assert_eq!(exit[0].0, px_w - 1);
        assert_eq!(exit[1].0, px_w - 1);
        assert_eq!(exit[1].1, exit[0].1 + 1);
        assert!(maze.is_valid_position(exit[0]));
        assert!(maze.is_valid_position(exit[1]));
    }
}

#[test]
fn every_valid_cell_is_reachable_from_the_entrance() {
    for seed in [3u64, 99, 2024] {
        let maze = generate(2, seed, 10, 6);
        let w = maze.px_width();
        let h = maze.px_height();

        let mut total_valid = 0usize;
        for y in 0..h {
            for x in 0..w {
                if maze.is_valid_position((x, y)) {
                    total_valid += 1;
                }
            }
        }

        let start = maze.entrance_positions()[0];
        assert!(maze.is_valid_position(start));
        let mut seen = vec![false; w * h];
        let mut queue = vec![start];
        seen[start.1 * w + start.0] = true;
        let mut reached = 0usize;
        while let Some((x, y)) = queue.pop() {
            reached += 1;
            let mut neighbours = vec![(x + 1, y), (x, y + 1)];
            if x > 0 {
                neighbours.push((x - 1, y));
            }
            if y > 0 {
                neighbours.push((x, y - 1));
            }
            for (nx, ny) in neighbours {
                if nx < w && ny < h && maze.is_valid_position((nx, ny)) && !seen[ny * w + nx] {
                    seen[ny * w + nx] = true;
                    queue.push((nx, ny));
                }
            }
        }
        assert_eq!(reached, total_valid);
    }
}

#[test]
fn power_up_keeps_its_distance_from_both_doors() {
    let maze = generate(1, 5, 12, 8);
    if let Some(p) = maze.power_up_position() {
        assert!(maze.is_valid_position(p));
        for door in maze
            .entrance_positions()
            .iter()
            .chain(maze.exit_positions().iter())
        {
            let dx = p.0 as i64 - door.0 as i64;
            let dy = p.1 as i64 - door.1 as i64;
            assert!(dx * dx + dy * dy > 36);
        }
    }
}
