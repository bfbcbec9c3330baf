//! Pursuer behaviour and leaderboard ordering.
use asterion::{
    rank_heroes, Direction, Hero, HeroScore, Maze, MazeGenerationAlgorithm, MazeImageStyle,
    MazeTopology, Minotaur, View,
};

fn open_corridor_maze(id: usize) -> Maze {
    Maze::new(
        id,
        0,
        4,
        1,
        Some(2),
        Some(2),
        MazeGenerationAlgorithm::DepthFirstSearch,
        MazeTopology::Orthogonal,
        MazeImageStyle::Straight,
    )
}

#[test]
fn greedy_pursuit_closes_in_monotonically() {
    let maze = open_corridor_maze(1);
    // Fully aggressive pursuer far from the entrance safe zone, with a
    // round view that covers the corridor.
    let mut minotaur = Minotaur::new("watcher".to_string(), 1, (12, 2), 5, 7, 100, 0);
    let hero = Hero::new(7, "prey".to_string(), (8, 2), 0);
    let heroes = vec![&hero];

    let mut now: u64 = 1000;
    let mut last_d2 = dist2(minotaur.position(), hero.position());
    assert_eq!(last_d2, 16);
    for _ in 0..8 {
        minotaur.update(&maze, &heroes, now);
        let d2 = dist2(minotaur.position(), hero.position());
        assert!(d2 <= last_d2, "distance to the chased hero never grows");
        last_d2 = d2;
        now += 500;
    }
    assert_eq!(last_d2, 0, "with full aggression the pursuer catches up");
    assert!(minotaur.is_chasing(7));
}

fn dist2(a: (usize, usize), b: (usize, usize)) -> i64 {
    let dx = a.0 as i64 - b.0 as i64;
    let dy = a.1 as i64 - b.1 as i64;
    dx * dx + dy * dy
}

#[test]
fn pursuer_drops_a_target_that_vanished() {
    let maze = open_corridor_maze(1);
    let mut minotaur = Minotaur::new("watcher".to_string(), 1, (12, 2), 5, 7, 100, 0);
    let hero = Hero::new(9, "prey".to_string(), (10, 2), 0);
    let heroes = vec![&hero];
    minotaur.update(&maze, &heroes, 1000);
    assert!(minotaur.is_chasing_someone());
    let nobody: Vec<&Hero> = Vec::new();
    minotaur.update(&maze, &nobody, 2000);
    assert!(!minotaur.is_chasing_someone());
}

#[test]
fn view_tiers_step_with_the_vision_stat() {
    let hero = Hero::new(1, "h".to_string(), (1, 2), 0);
    assert!(matches!(hero.view(), View::Cone { radius: 7 }));
    assert_eq!(Direction::North.opposite(), Direction::South);
    assert_eq!(
        Direction::North.rotate_clockwise(),
        Direction::NorthEast
    );
    assert_eq!(
        Direction::North.rotate_counter_clockwise(),
        Direction::NorthWest
    );
}

#[test]
fn test_top_heros() {
    let mut records = Vec::new();
    for i in 0..100u64 {
        records.push(HeroScore {
            id: i as u128,
            name: format!("name#{:03}", rand::random_range(0..1000usize)),
            maze_id: rand::random_range(0..=10usize),
            duration_ms: rand::random_range(15000..150000u64),
        });
    }
    let top_heros = rank_heroes(records);
    for index in 0..top_heros.len() {
        let (maze_id, timer) = (top_heros[index].maze_id, top_heros[index].duration_ms);
        let (next_maze_id, next_timer) = (top_heros[index].maze_id, top_heros[index].duration_ms);
        assert!(maze_id > next_maze_id || timer <= next_timer);
    }
}

#[test]
fn ranking_orders_by_maze_then_time() {
    let records = vec![
        HeroScore { id: 1, name: "a".to_string(), maze_id: 3, duration_ms: 5000 },
        HeroScore { id: 2, name: "b".to_string(), maze_id: 5, duration_ms: 9000 },
        HeroScore { id: 3, name: "c".to_string(), maze_id: 5, duration_ms: 4000 },
    ];
    let top = rank_heroes(records);
    assert_eq!(top.len(), 3);
    assert_eq!(top[0].id, 3);
    assert_eq!(top[1].id, 2);
    assert_eq!(top[2].id, 1);
}
