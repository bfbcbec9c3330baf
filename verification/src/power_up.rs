//! One-time pickups that upgrade a hero stat.
use vstd::prelude::*;

verus! {

/// A stat upgrade granted by stepping on a maze's power-up cell.
#[derive(Debug, Clone, Copy, PartialEq, Eq, Structural)]
pub enum PowerUp {
    Speed,
    Vision,
    Memory,
}

} // verus!
