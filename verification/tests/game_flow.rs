//! End-to-end engine scenarios: cooldowns, ladder transitions, collisions,
//! respawns and the leaderboard.
use asterion::{
    Direction, Game, HeroCommand, HeroState, Maze, MazeGenerationAlgorithm, MazeImageStyle,
    MazeTopology, Minotaur,
};

fn open_corridor_maze(id: usize) -> Maze {
    Maze::new(
        id,
        0,
        4,
        1,
        Some(2),
        Some(2),
        MazeGenerationAlgorithm::DepthFirstSearch,
        MazeTopology::Orthogonal,
        MazeImageStyle::Straight,
    )
}

fn ladder(n: usize) -> Vec<Maze> {
    (0..n).map(open_corridor_maze).collect()
}

const EAST: HeroCommand = HeroCommand::Move { direction: Direction::East };

#[test]
fn movement_respects_the_cooldown() {
    let mut game = Game::with_mazes(ladder(2), Vec::new());
    game.add_player(1, "runner", 0);
    // The first command starts the run and moves east.
    game.handle_command(&EAST, 1, 1000);
    let after_first = game.get_hero(1).unwrap().position();
    assert!(matches!(game.get_hero(1).unwrap().state, HeroState::InMaze { instant: 1000 }));

    // Too soon: the position must not change, but the facing may.
    game.handle_command(
        &HeroCommand::Move { direction: Direction::North },
        1,
        1050,
    );
    let hero = game.get_hero(1).unwrap();
    assert_eq!(hero.position(), after_first);
    assert_eq!(hero.direction(), Direction::North);

    // After the cooldown the hero moves again.
    game.handle_command(&EAST, 1, 1400);
    let hero = game.get_hero(1).unwrap();
    assert_eq!(hero.position().0, after_first.0 + 1);
}

#[test]
fn turning_is_free_and_immediate() {
    let mut game = Game::with_mazes(ladder(2), Vec::new());
    game.add_player(5, "turner", 0);
    game.handle_command(&HeroCommand::TurnClockwise, 5, 100);
    let hero = game.get_hero(5).unwrap();
    assert_eq!(hero.direction(), Direction::SouthEast);
    game.handle_command(&HeroCommand::TurnCounterClockwise, 5, 110);
    let hero = game.get_hero(5).unwrap();
    assert_eq!(hero.direction(), Direction::East);
}

#[test]
fn reaching_the_exit_advances_to_the_next_maze_entrance() {
    let mut game = Game::with_mazes(ladder(2), Vec::new());
    game.add_player(1, "runner", 0);
    let start = game.get_hero(1).unwrap().position();
    let row = start.1;

    let mut now: u64 = 1000;
    let mut steps = 0usize;
    while game.get_hero(1).unwrap().maze_id() == 0 && steps < 100 {
        game.handle_command(&EAST, 1, now);
        now += 200;
        steps += 1;
    }
    let hero = game.get_hero(1).unwrap();
    assert_eq!(hero.maze_id(), 1, "the hero advanced to the second maze");
    assert_eq!(
        hero.position(),
        (0, row),
        "the hero stands on the matching entrance cell of the next maze"
    );
    assert!(matches!(hero.state, HeroState::InMaze { .. }));
}

#[test]
fn sharing_a_cell_with_a_pursuer_is_deadly() {
    let mazes = ladder(1);
    let guard_a = Minotaur::new("guard".to_string(), 0, (12, 2), 0, 7, 0, 0);
    let guard_b = Minotaur::new("guard".to_string(), 0, (12, 3), 0, 7, 0, 0);
    let mut game = Game::with_mazes(mazes, vec![guard_a, guard_b]);
    game.add_player(1, "victim", 0);

    let mut now: u64 = 1000;
    let start_instant = now;
    game.handle_command(&EAST, 1, now);
    let mut steps = 0usize;
    while game.get_hero(1).unwrap().position().0 < 12 && steps < 100 {
        now += 200;
        game.handle_command(&EAST, 1, now);
        steps += 1;
    }
    assert_eq!(game.get_hero(1).unwrap().position().0, 12);

    let tick_time = now + 100;
    game.update(tick_time);
    let hero = game.get_hero(1).unwrap();
    match hero.state {
        HeroState::Dead { duration, instant } => {
            assert_eq!(duration, tick_time - start_instant);
            assert_eq!(instant, tick_time);
        },
        other => panic!("the caught hero should be dead, was {:?}", other),
    }
    let kills: usize = game.top_minotaurs().iter().map(|s| s.kills).sum();
    assert_eq!(kills, 1, "exactly one pursuer scored the kill");

    // After the respawn interval the hero is back at the first maze.
    game.update(tick_time + 2000);
    let hero = game.get_hero(1).unwrap();
    assert!(matches!(hero.state, HeroState::WaitingToStart));
    assert_eq!(hero.maze_id(), 0);
    assert_eq!(hero.vision(), 1);
    assert_eq!(hero.speed(), 4);
}

#[test]
fn deeper_heroes_lead_the_board() {
    let mut game = Game::with_mazes(ladder(10), Vec::new());
    game.add_player(1, "shallow", 0);
    game.add_player(2, "deep", 0);

    let mut now: u64 = 1000;
    for (id, target) in [(1u128, 3usize), (2u128, 5usize)] {
        let mut steps = 0usize;
        while game.get_hero(id).unwrap().maze_id() < target && steps < 500 {
            game.handle_command(&EAST, id, now);
            now += 200;
            steps += 1;
        }
        assert_eq!(game.get_hero(id).unwrap().maze_id(), target);
    }

    let top = game.top_heros();
    let pos_deep = top.iter().position(|s| s.id == 2).unwrap();
    let pos_shallow = top.iter().position(|s| s.id == 1).unwrap();
    assert!(
        pos_deep < pos_shallow,
        "the maze-5 hero is listed strictly before the maze-3 hero"
    );
}

#[test]
fn unknown_heroes_are_ignored() {
    let mut game = Game::with_mazes(ladder(2), Vec::new());
    game.handle_command(&EAST, 77, 100);
    assert_eq!(game.number_of_players(), 0);
    assert!(game.get_hero(77).is_none());
    game.add_player(77, "late", 200);
    assert_eq!(game.number_of_players(), 1);
    game.remove_player(77);
    assert!(game.get_hero(77).is_none());
}

#[test]
fn heroes_start_one_cell_east_of_an_entrance_cell() {
    let maze = open_corridor_maze(1);
    let e0 = maze.entrance_positions()[0];
    let e1 = maze.entrance_positions()[1];
    for _ in 0..10 {
        let start = maze.hero_starting_position();
        assert!(start == (e0.0 + 1, e0.1) || start == (e1.0 + 1, e1.1));
    }
}

#[test]
fn alarm_levels_reflect_the_pursuers() {
    // No pursuers anywhere: all calm.
    let mut game = Game::with_mazes(ladder(1), Vec::new());
    game.add_player(1, "alone", 0);
    let (level, distance) = game.alarm_level(1);
    assert!(matches!(level, asterion::AlarmLevel::NoMinotaurs));
    assert_eq!(distance, usize::MAX);
    // An unknown hero is also calm.
    let (level, _) = game.alarm_level(99);
    assert!(matches!(level, asterion::AlarmLevel::NoMinotaurs));

    // A passive pursuer in the same maze is noticed but not chasing.
    let idle = Minotaur::new("idle".to_string(), 0, (12, 2), 0, 0, 0, 0);
    let mut game = Game::with_mazes(ladder(1), vec![idle]);
    game.add_player(2, "watched", 0);
    let (level, distance) = game.alarm_level(2);
    assert!(matches!(level, asterion::AlarmLevel::NotChasing));
    assert!(distance < usize::MAX);
}
