//! Grid positions and the metric used for chase decisions.
use vstd::prelude::*;
use crate::direction::Direction;

verus! {

/// A pixel-resolution grid coordinate; y grows southward.
pub type Position = (usize, usize);

/// Coordinates are kept well below this bound so that squared distances and
/// unit steps never overflow, even on 32-bit targets.
pub const MAX_COORD: usize = 30000;

/// The cell one orthogonal step away; diagonal directions do not move, and
/// steps off the north/west edge clamp at zero.
pub open spec fn step_spec(p: Position, d: Direction) -> Position {
    match d {
        Direction::North => (p.0, if p.1 == 0 { 0usize } else { (p.1 - 1) as usize }),
        Direction::South => (p.0, (p.1 + 1) as usize),
        Direction::West => (if p.0 == 0 { 0usize } else { (p.0 - 1) as usize }, p.1),
        Direction::East => ((p.0 + 1) as usize, p.1),
        _ => p,
    }
}

/// Step one cell in an orthogonal direction (diagonals hold position).
pub fn into_direction(p: Position, d: &Direction) -> (r: Position)
    requires
        p.0 < MAX_COORD,
        p.1 < MAX_COORD,
    ensures
        r == step_spec(p, *d),
        r.0 <= p.0 + 1,
        r.1 <= p.1 + 1,
{
    let (x, y) = p;
    match d {
        Direction::North => (x, if y == 0 { 0 } else { y - 1 }),
        Direction::South => (x, y + 1),
        Direction::West => (if x == 0 { 0 } else { x - 1 }, y),
        Direction::East => (x + 1, y),
        _ => (x, y),
    }
}

/// Squared Euclidean distance over mathematical integers.
pub open spec fn dist2(a: (int, int), b: (int, int)) -> int {
    (a.0 - b.0) * (a.0 - b.0) + (a.1 - b.1) * (a.1 - b.1)
}

pub open spec fn pos_int(p: Position) -> (int, int) {
    (p.0 as int, p.1 as int)
}

/// Squared Euclidean distance between two positions; comparisons use this to
/// avoid any rounding.
pub fn distance_squared(a: Position, b: Position) -> (r: usize)
    requires
        a.0 < MAX_COORD,
        a.1 < MAX_COORD,
        b.0 < MAX_COORD,
        b.1 < MAX_COORD,
    ensures
        r == dist2(pos_int(a), pos_int(b)),
{
    let dx: usize = if a.0 >= b.0 {
        a.0 - b.0
    } else {
        b.0 - a.0
    };
    let dy: usize = if a.1 >= b.1 {
        a.1 - b.1
    } else {
        b.1 - a.1
    };
    assert(dx * dx + dy * dy == dist2(pos_int(a), pos_int(b))) by (nonlinear_arith)
        requires
            dx == if a.0 >= b.0 { a.0 - b.0 } else { b.0 - a.0 },
            dy == if a.1 >= b.1 { a.1 - b.1 } else { b.1 - a.1 },
    ;
    assert(dx * dx + dy * dy < usize::MAX) by (nonlinear_arith)
        requires
            dx < MAX_COORD,
            dy < MAX_COORD,
            usize::MAX >= 0xffff_ffff,
    ;
    dx * dx + dy * dy
}

} // verus!
