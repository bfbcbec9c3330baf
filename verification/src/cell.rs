//! Logical maze cells and the lattice topologies the carver works over.
use vstd::prelude::*;
use crate::direction::Direction;

verus! {

/// The highest wall count a cell can have: one per compass direction of the
/// octagonal lattice.
pub const MAX_NUMBER_OF_WALLS: usize = 8;

/// One logical cell of the carving grid, with a wall flag per direction.
#[derive(Debug, Copy, Clone, PartialEq, Eq, Structural)]
pub struct Cell {
    x: usize,
    y: usize,
    wall_n: bool,
    wall_e: bool,
    wall_s: bool,
    wall_w: bool,
    wall_ne: bool,
    wall_se: bool,
    wall_sw: bool,
    wall_nw: bool,
}

impl Cell {
    pub closed spec fn x_spec(self) -> usize {
        self.x
    }

    pub closed spec fn y_spec(self) -> usize {
        self.y
    }

    pub closed spec fn wall_spec(self, d: Direction) -> bool {
        match d {
            Direction::North => self.wall_n,
            Direction::East => self.wall_e,
            Direction::South => self.wall_s,
            Direction::West => self.wall_w,
            Direction::NorthEast => self.wall_ne,
            Direction::SouthEast => self.wall_se,
            Direction::SouthWest => self.wall_sw,
            Direction::NorthWest => self.wall_nw,
        }
    }

    /// A fresh cell with every wall standing.
    pub fn new(x: usize, y: usize) -> (r: Cell)
        ensures
            r.x_spec() == x,
            r.y_spec() == y,
            forall|d: Direction| r.wall_spec(d),
    {
        let r = Cell {
            x,
            y,
            wall_n: true,
            wall_e: true,
            wall_s: true,
            wall_w: true,
            wall_ne: true,
            wall_se: true,
            wall_sw: true,
            wall_nw: true,
        };
        assert forall|d: Direction| r.wall_spec(d) by {}
        r
    }

    pub fn x(&self) -> (r: usize)
        ensures
            r == self.x_spec(),
    {
        self.x
    }

    pub fn y(&self) -> (r: usize)
        ensures
            r == self.y_spec(),
    {
        self.y
    }

    pub fn has_wall(&self, direction: Direction) -> (r: bool)
        ensures
            r == self.wall_spec(direction),
    {
        match direction {
            Direction::North => self.wall_n,
            Direction::East => self.wall_e,
            Direction::South => self.wall_s,
            Direction::West => self.wall_w,
            Direction::NorthEast => self.wall_ne,
            Direction::SouthEast => self.wall_se,
            Direction::SouthWest => self.wall_sw,
            Direction::NorthWest => self.wall_nw,
        }
    }

    /// Knock down the wall toward `direction`, leaving the rest standing.
    pub(crate) fn remove_wall(&mut self, direction: Direction)
        ensures
            final(self).x_spec() == old(self).x_spec(),
            final(self).y_spec() == old(self).y_spec(),
            !final(self).wall_spec(direction),
            forall|d: Direction| d != direction ==> final(self).wall_spec(d) == old(
                self,
            ).wall_spec(d),
    {
        match direction {
            Direction::North => self.wall_n = false,
            Direction::East => self.wall_e = false,
            Direction::South => self.wall_s = false,
            Direction::West => self.wall_w = false,
            Direction::NorthEast => self.wall_ne = false,
            Direction::SouthEast => self.wall_se = false,
            Direction::SouthWest => self.wall_sw = false,
            Direction::NorthWest => self.wall_nw = false,
        }
    }

    pub closed spec fn number_of_walls_spec(self) -> int {
        (if self.wall_n {
            1int
        } else {
            0int
        }) + (if self.wall_e {
            1int
        } else {
            0int
        }) + (if self.wall_s {
            1int
        } else {
            0int
        }) + (if self.wall_w {
            1int
        } else {
            0int
        }) + (if self.wall_ne {
            1int
        } else {
            0int
        }) + (if self.wall_se {
            1int
        } else {
            0int
        }) + (if self.wall_sw {
            1int
        } else {
            0int
        }) + (if self.wall_nw {
            1int
        } else {
            0int
        })
    }

    /// The wall count agrees with the per-direction flags: it is full
    /// exactly when every wall stands, and below the maximum exactly when
    /// some wall has been opened.
    pub proof fn lemma_number_of_walls(self)
        ensures
            0 <= self.number_of_walls_spec() <= 8,
            (self.number_of_walls_spec() == 8) <==> (forall|d: Direction| self.wall_spec(d)),
            (self.number_of_walls_spec() < 8) <==> (exists|d: Direction| !self.wall_spec(d)),
    {
        if self.number_of_walls_spec() == 8 {
            assert forall|d: Direction| self.wall_spec(d) by {
                assert(self.wall_n && self.wall_e && self.wall_s && self.wall_w && self.wall_ne
                    && self.wall_se && self.wall_sw && self.wall_nw);
            }
        }
        if self.number_of_walls_spec() < 8 {
            if !self.wall_n {
                assert(!self.wall_spec(Direction::North));
            } else if !self.wall_e {
                assert(!self.wall_spec(Direction::East));
            } else if !self.wall_s {
                assert(!self.wall_spec(Direction::South));
            } else if !self.wall_w {
                assert(!self.wall_spec(Direction::West));
            } else if !self.wall_ne {
                assert(!self.wall_spec(Direction::NorthEast));
            } else if !self.wall_se {
                assert(!self.wall_spec(Direction::SouthEast));
            } else if !self.wall_sw {
                assert(!self.wall_spec(Direction::SouthWest));
            } else {
                assert(!self.wall_spec(Direction::NorthWest));
            }
        }
        if exists|d: Direction| !self.wall_spec(d) {
            let d = choose|d: Direction| !self.wall_spec(d);
            assert(self.number_of_walls_spec() < 8);
        }
    }

    /// How many of the 8 walls are still standing.
    pub fn number_of_walls(&self) -> (r: usize)
        ensures
            r == self.number_of_walls_spec(),
            r <= MAX_NUMBER_OF_WALLS,
    {
        let n: usize = (if self.wall_n {
            1usize
        } else {
            0usize
        }) + (if self.wall_e {
            1usize
        } else {
            0usize
        }) + (if self.wall_s {
            1usize
        } else {
            0usize
        }) + (if self.wall_w {
            1usize
        } else {
            0usize
        }) + (if self.wall_ne {
            1usize
        } else {
            0usize
        }) + (if self.wall_se {
            1usize
        } else {
            0usize
        }) + (if self.wall_sw {
            1usize
        } else {
            0usize
        }) + (if self.wall_nw {
            1usize
        } else {
            0usize
        });
        n
    }
}

/// Which carving algorithm builds the spanning tree.
#[derive(Debug, Clone, Copy, PartialEq, Eq, Structural)]
pub enum MazeGenerationAlgorithm {
    DepthFirstSearch,
    Wilson,
}

/// How logical cells map onto pixel positions.
#[derive(Debug, Clone, Copy, PartialEq, Eq, Structural)]
pub enum MazeImageStyle {
    Straight,
    Seasaw,
}

/// How many neighbours a cell links to.
#[derive(Debug, Clone, Copy, PartialEq, Eq, Structural)]
pub enum MazeTopology {
    Orthogonal,
    Chessboard,
}

impl MazeTopology {
    pub open spec fn number_of_linked_cells_spec(self) -> int {
        match self {
            MazeTopology::Orthogonal => 4,
            MazeTopology::Chessboard => 8,
        }
    }

    pub(crate) fn number_of_linked_cells(&self) -> (r: usize)
        ensures
            r == self.number_of_linked_cells_spec(),
    {
        match self {
            MazeTopology::Orthogonal => 4,
            MazeTopology::Chessboard => 8,
        }
    }

    /// The directions a cell of this topology may link through: the first
    /// `number_of_linked_cells` of the canonical direction order.
    pub fn available_directions(&self) -> (r: Vec<Direction>)
        ensures
            r@.len() == self.number_of_linked_cells_spec(),
            forall|i: int| 0 <= i < r@.len() ==> (#[trigger] r@[i]).index_spec() == i,
    {
        let all = Direction::all();
        let n = self.number_of_linked_cells();
        let mut r: Vec<Direction> = Vec::new();
        let mut i: usize = 0;
        while i < n
            invariant
                n <= 8,
                all@.len() == 8,
                forall|j: int| 0 <= j < 8 ==> (#[trigger] all@[j]).index_spec() == j,
                i <= n,
                r@.len() == i,
                forall|j: int| 0 <= j < i ==> (#[trigger] r@[j]).index_spec() == j,
            decreases n - i,
        {
            r.push(all[i]);
            i += 1;
        }
        r
    }
}

} // verus!
