//! How threatened a hero currently is by the pursuers of its maze.
use vstd::prelude::*;

verus! {

/// Threat summary for one hero, from harmless to actively hunted.
#[derive(Debug, Clone, Copy, PartialEq, Eq, Structural)]
pub enum AlarmLevel {
    NoMinotaurs,
    NotChasing,
    ChasingOtherHero,
    ChasingHero,
}

impl AlarmLevel {
    /// Severity rank; higher means more dangerous.
    pub open spec fn rank_spec(self) -> int {
        match self {
            AlarmLevel::NoMinotaurs => 0,
            AlarmLevel::NotChasing => 1,
            AlarmLevel::ChasingOtherHero => 2,
            AlarmLevel::ChasingHero => 3,
        }
    }

    pub fn rank(&self) -> (r: u8)
        ensures
            r == self.rank_spec(),
    {
        match self {
            AlarmLevel::NoMinotaurs => 0,
            AlarmLevel::NotChasing => 1,
            AlarmLevel::ChasingOtherHero => 2,
            AlarmLevel::ChasingHero => 3,
        }
    }
}

} // verus!
