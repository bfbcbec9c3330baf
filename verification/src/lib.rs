//! A multiplayer maze-chase simulation core: procedurally carved grid mazes,
//! an occlusion-aware visibility engine, and tick-based hero/pursuer state
//! machines with competitive rankings.
use vstd::prelude::*;

mod alarm_level;
mod cell;
mod cellset;
mod line;
mod hero;
mod maze;
mod minotaur;
mod score;
mod visibility;
mod direction;
mod game;
mod position;
mod power_up;
mod rng;
mod view;

pub use alarm_level::AlarmLevel;
pub use cell::{Cell, MazeGenerationAlgorithm, MazeImageStyle, MazeTopology};
pub use cellset::CellSet;
pub use direction::Direction;
pub use game::{Game, MAX_MAZE_ID, RESPAWN_INTERVAL_MS};
pub use hero::{Hero, HeroCommand, HeroState, UiOptions};
pub use maze::{Maze, VisKey};
pub use minotaur::Minotaur;
pub use score::{rank_heroes, rank_minotaurs, HeroScore, MinotaurScore};
pub use position::{distance_squared, into_direction, Position};
pub use power_up::PowerUp;
pub use view::{movement_recovery_ms, view_for_vision, View};

verus! {

/// Stable identifier of a player or pursuer.
pub type PlayerId = u128;

} // verus!
