//! The eight compass directions of the octagonal maze lattice.
use vstd::prelude::*;

verus! {

/// One of the 8 compass directions. The first four are the orthogonal ones;
/// topologies that link only 4 neighbours use exactly those.
#[derive(Debug, Copy, Clone, PartialEq, Eq, Structural)]
pub enum Direction {
    North,
    East,
    South,
    West,
    NorthEast,
    SouthEast,
    SouthWest,
    NorthWest,
}

impl Direction {
    /// Position of this direction in the canonical order; the orthogonal
    /// directions come first.
    pub open spec fn index_spec(self) -> int {
        match self {
            Direction::North => 0,
            Direction::East => 1,
            Direction::South => 2,
            Direction::West => 3,
            Direction::NorthEast => 4,
            Direction::SouthEast => 5,
            Direction::SouthWest => 6,
            Direction::NorthWest => 7,
        }
    }

    pub fn index(&self) -> (r: usize)
        ensures
            r == self.index_spec(),
    {
        match self {
            Direction::North => 0,
            Direction::East => 1,
            Direction::South => 2,
            Direction::West => 3,
            Direction::NorthEast => 4,
            Direction::SouthEast => 5,
            Direction::SouthWest => 6,
            Direction::NorthWest => 7,
        }
    }

    pub open spec fn opposite_spec(self) -> Direction {
        match self {
            Direction::North => Direction::South,
            Direction::East => Direction::West,
            Direction::South => Direction::North,
            Direction::West => Direction::East,
            Direction::NorthEast => Direction::SouthWest,
            Direction::SouthWest => Direction::NorthEast,
            Direction::SouthEast => Direction::NorthWest,
            Direction::NorthWest => Direction::SouthEast,
        }
    }

    pub fn opposite(&self) -> (r: Direction)
        ensures
            r == self.opposite_spec(),
    {
        match self {
            Direction::North => Direction::South,
            Direction::East => Direction::West,
            Direction::South => Direction::North,
            Direction::West => Direction::East,
            Direction::NorthEast => Direction::SouthWest,
            Direction::SouthWest => Direction::NorthEast,
            Direction::SouthEast => Direction::NorthWest,
            Direction::NorthWest => Direction::SouthEast,
        }
    }

    /// The unit step of this direction, in grid coordinates where y grows
    /// southward.
    pub open spec fn offset_spec(self) -> (int, int) {
        match self {
            Direction::North => (0, -1),
            Direction::East => (1, 0),
            Direction::South => (0, 1),
            Direction::West => (-1, 0),
            Direction::NorthEast => (1, -1),
            Direction::SouthEast => (1, 1),
            Direction::SouthWest => (-1, 1),
            Direction::NorthWest => (-1, -1),
        }
    }

    pub fn as_offset(&self) -> (r: (isize, isize))
        ensures
            r.0 as int == self.offset_spec().0,
            r.1 as int == self.offset_spec().1,
    {
        match self {
            Direction::North => (0, -1),
            Direction::East => (1, 0),
            Direction::South => (0, 1),
            Direction::West => (-1, 0),
            Direction::NorthEast => (1, -1),
            Direction::SouthEast => (1, 1),
            Direction::SouthWest => (-1, 1),
            Direction::NorthWest => (-1, -1),
        }
    }

    pub open spec fn rotate_clockwise_spec(self) -> Direction {
        match self {
            Direction::North => Direction::NorthEast,
            Direction::East => Direction::SouthEast,
            Direction::South => Direction::SouthWest,
            Direction::West => Direction::NorthWest,
            Direction::NorthEast => Direction::East,
            Direction::SouthEast => Direction::South,
            Direction::SouthWest => Direction::West,
            Direction::NorthWest => Direction::North,
        }
    }

    /// One 45-degree step clockwise.
    pub fn rotate_clockwise(&self) -> (r: Direction)
        ensures
            r == self.rotate_clockwise_spec(),
    {
        match self {
            Direction::North => Direction::NorthEast,
            Direction::East => Direction::SouthEast,
            Direction::South => Direction::SouthWest,
            Direction::West => Direction::NorthWest,
            Direction::NorthEast => Direction::East,
            Direction::SouthEast => Direction::South,
            Direction::SouthWest => Direction::West,
            Direction::NorthWest => Direction::North,
        }
    }

    pub open spec fn rotate_counter_clockwise_spec(self) -> Direction {
        match self {
            Direction::North => Direction::NorthWest,
            Direction::East => Direction::NorthEast,
            Direction::South => Direction::SouthEast,
            Direction::West => Direction::SouthWest,
            Direction::NorthEast => Direction::North,
            Direction::SouthEast => Direction::East,
            Direction::SouthWest => Direction::South,
            Direction::NorthWest => Direction::West,
        }
    }

    /// One 45-degree step counter-clockwise.
    pub fn rotate_counter_clockwise(&self) -> (r: Direction)
        ensures
            r == self.rotate_counter_clockwise_spec(),
    {
        match self {
            Direction::North => Direction::NorthWest,
            Direction::East => Direction::NorthEast,
            Direction::South => Direction::SouthEast,
            Direction::West => Direction::SouthWest,
            Direction::NorthEast => Direction::North,
            Direction::SouthEast => Direction::East,
            Direction::SouthWest => Direction::South,
            Direction::NorthWest => Direction::West,
        }
    }

    /// Distinct directions have distinct indices.
    pub proof fn lemma_index_injective(a: Direction, b: Direction)
        requires
            a.index_spec() == b.index_spec(),
        ensures
            a == b,
    {
    }

    /// All 8 directions in canonical order.
    pub fn all() -> (r: Vec<Direction>)
        ensures
            r@.len() == 8,
            forall|i: int| 0 <= i < 8 ==> #[trigger] r@[i].index_spec() == i,
    {
        let mut v: Vec<Direction> = Vec::new();
        v.push(Direction::North);
        v.push(Direction::East);
        v.push(Direction::South);
        v.push(Direction::West);
        v.push(Direction::NorthEast);
        v.push(Direction::SouthEast);
        v.push(Direction::SouthWest);
        v.push(Direction::NorthWest);
        assert(forall|i: int| 0 <= i < 8 ==> #[trigger] v@[i].index_spec() == i) by {
            assert(v@[0].index_spec() == 0);
            assert(v@[1].index_spec() == 1);
            assert(v@[2].index_spec() == 2);
            assert(v@[3].index_spec() == 3);
            assert(v@[4].index_spec() == 4);
            assert(v@[5].index_spec() == 5);
            assert(v@[6].index_spec() == 6);
            assert(v@[7].index_spec() == 7);
        }
        v
    }
}

} // verus!
