//! Maze generation and per-maze queries: randomized depth-first carving over
//! a logical cell grid, rasterization to a pixel-resolution valid-cell set,
//! entrance/exit punching, random rooms, power-up placement, and the
//! memoized visibility computation.
use vstd::prelude::*;
use vstd::view::View as _;
use vstd::pervasive::unreached;
use crate::cell::{Cell, MazeGenerationAlgorithm, MazeImageStyle, MazeTopology, MAX_NUMBER_OF_WALLS};
use crate::cellset::CellSet;
use crate::direction::Direction;
use crate::position::{dist2, distance_squared, pos_int, Position};
use crate::rng::{random_below, SeededRng};
use crate::minotaur::Minotaur;
use crate::view::{view_for_vision, View};
use crate::visibility::{compute_visible, visible_spec};

verus! {

/// Side of one logical cell in pixels.
pub const CELL_SIZE: usize = 6;

/// Thickness of a wall in pixels.
pub const WALL_SIZE: usize = 2;

/// Upper bound on maze dimensions in logical cells.
pub const MAX_MAZE_SIDE: usize = 64;

/// Key of one memoized visibility result.
#[derive(Debug, Clone, Copy, PartialEq, Eq, Structural)]
pub struct VisKey {
    pub x: usize,
    pub y: usize,
    pub direction: Direction,
    pub view: View,
}

proof fn lemma_grid_index(w: int, h: int, x: int, y: int)
    requires
        0 <= x < w <= 64,
        0 <= y < h <= 64,
    ensures
        0 <= y * w + x < w * h,
        w * h <= 4096,
        w * h == h * w,
{
    assert(0 <= y * w + x < w * h && w * h <= 4096 && w * h == h * w) by (nonlinear_arith)
        requires
            0 <= x < w <= 64,
            0 <= y < h <= 64,
    ;
}

/// Whether stepping from `(cx, cy)` toward `d` stays on the `w` x `h` cell
/// grid.
pub open spec fn neighbor_in_grid(cx: int, cy: int, d: Direction, w: int, h: int) -> bool {
    let o = d.offset_spec();
    &&& 0 <= cx + o.0 < w
    &&& 0 <= cy + o.1 < h
}

/// Every opened wall is mirrored: some cell one step toward `d` has its
/// opposite wall opened too (walls are only ever removed in such pairs).
pub open spec fn walls_symmetric(cells: Seq<Cell>) -> bool {
    forall|i: int, d: Direction|
        0 <= i < cells.len() && !(#[trigger] cells[i].wall_spec(d)) ==> exists|j: int|
            0 <= j < cells.len() && (#[trigger] cells[j]).x_spec() == cells[i].x_spec()
                + d.offset_spec().0 && cells[j].y_spec() == cells[i].y_spec()
                + d.offset_spec().1 && !cells[j].wall_spec(d.opposite_spec())
}

/// How many cells are still unvisited; the carving loop's primary measure.
spec fn count_false(s: Seq<bool>) -> int
    decreases s.len(),
{
    if s.len() == 0 {
        0
    } else {
        count_false(s.drop_last()) + if s.last() {
            0int
        } else {
            1int
        }
    }
}

proof fn lemma_count_false_nonneg(s: Seq<bool>)
    ensures
        count_false(s) >= 0,
    decreases s.len(),
{
    if s.len() > 0 {
        lemma_count_false_nonneg(s.drop_last());
    }
}

/// Marking one unvisited cell visited lowers the measure by one.
proof fn lemma_count_false_update(s: Seq<bool>, i: int)
    requires
        0 <= i < s.len(),
        !s[i],
    ensures
        count_false(s.update(i, true)) == count_false(s) - 1,
    decreases s.len(),
{
    let t = s.update(i, true);
    if i == s.len() - 1 {
        assert(t.drop_last() =~= s.drop_last());
    } else {
        assert(t.drop_last() =~= s.drop_last().update(i, true));
        lemma_count_false_update(s.drop_last(), i);
    }
}

/// Build the logical cell grid and carve a spanning tree through it by
/// randomized depth-first search: repeatedly pop a cell, and when it still
/// has unvisited neighbours, push it back, open the wall toward one chosen
/// at random, and descend into that neighbour.
#[verifier::rlimit(100)]
fn generate_cells(
    width: usize,
    height: usize,
    generation_algorithm: &MazeGenerationAlgorithm,
    topology: &MazeTopology,
    rng: &mut SeededRng,
) -> (cells: Vec<Cell>)
    requires
        1 <= width <= MAX_MAZE_SIDE,
        1 <= height <= MAX_MAZE_SIDE,
    ensures
        cells@.len() == width * height,
        forall|i: int|
            0 <= i < cells@.len() ==> (#[trigger] cells@[i]).x_spec() < width
                && cells@[i].y_spec() < height,
        forall|x: int, y: int|
            0 <= x < width && 0 <= y < height ==> (#[trigger] cells@[y * width + x]).x_spec() == x
                && cells@[y * width + x].y_spec() == y,
        walls_symmetric(cells@),
{
    let mut cells: Vec<Cell> = Vec::new();
    let mut y: usize = 0;
    while y < height
        invariant
            width <= MAX_MAZE_SIDE,
            height <= MAX_MAZE_SIDE,
            y <= height,
            cells@.len() == y * width,
            forall|i: int|
                0 <= i < cells@.len() ==> (#[trigger] cells@[i]).x_spec() < width
                    && cells@[i].y_spec() < height,
            forall|x0: int, y0: int|
                0 <= x0 < width && 0 <= y0 < y ==> (#[trigger] cells@[y0 * width + x0]).x_spec()
                    == x0 && cells@[y0 * width + x0].y_spec() == y0,
            forall|i: int, d: Direction| 0 <= i < cells@.len() ==> #[trigger] cells@[i].wall_spec(
                d),
        decreases height - y,
    {
        let mut x: usize = 0;
        while x < width
            invariant
                width <= MAX_MAZE_SIDE,
                height <= MAX_MAZE_SIDE,
                y < height,
                x <= width,
                cells@.len() == y * width + x,
                forall|i: int|
                    0 <= i < cells@.len() ==> (#[trigger] cells@[i]).x_spec() < width
                        && cells@[i].y_spec() < height,
                forall|x0: int, y0: int|
                    0 <= x0 < width && 0 <= y0 < y ==> (#[trigger] cells@[y0 * width
                        + x0]).x_spec() == x0 && cells@[y0 * width + x0].y_spec() == y0,
                forall|x0: int|
                    0 <= x0 < x ==> (#[trigger] cells@[y * width + x0]).x_spec() == x0 && cells@[y
                        * width + x0].y_spec() == y,
                forall|i: int, d: Direction|
                    0 <= i < cells@.len() ==> #[trigger] cells@[i].wall_spec(d),
            decreases width - x,
        {
            proof {
                lemma_grid_index(width as int, height as int, x as int, y as int);
                assert forall|x0: int, y0: int|
                    0 <= x0 < width && 0 <= y0 < y implies 0 <= #[trigger] (y0 * width + x0) < y
                        * width + x by {
                    assert(y0 * width + x0 < y * width + x) by (nonlinear_arith)
                        requires
                            0 <= x0 < width,
                            0 <= y0 < y,
                            0 <= x,
                    ;
                }
            }
            cells.push(Cell::new(x, y));
            x += 1;
        }
        proof {
            assert(y * width + width == (y + 1) * width) by (nonlinear_arith);
        }
        y += 1;
    }
    proof {
        assert(walls_symmetric(cells@));
    }
    proof {
        assert(height * width == width * height) by (nonlinear_arith);
        lemma_grid_index(width as int, height as int, 0, 0);
    }

    match generation_algorithm {
        MazeGenerationAlgorithm::DepthFirstSearch => {
            let mut stack: Vec<usize> = Vec::new();
            let mut visited: Vec<bool> = vec![false; cells.len()];
            stack.push(0);
            visited[0] = true;
            let available_directions = topology.available_directions();

            while stack.len() > 0
                invariant
                    width <= MAX_MAZE_SIDE,
                    height <= MAX_MAZE_SIDE,
                    1 <= width,
                    1 <= height,
                    cells@.len() == width * height,
                    visited@.len() == cells@.len(),
                    available_directions@.len() <= 8,
                    forall|i: int|
                        0 <= i < cells@.len() ==> (#[trigger] cells@[i]).x_spec() < width
                            && cells@[i].y_spec() < height,
                    forall|x0: int, y0: int|
                        0 <= x0 < width && 0 <= y0 < height ==> (#[trigger] cells@[y0 * width
                            + x0]).x_spec() == x0 && cells@[y0 * width + x0].y_spec() == y0,
                    walls_symmetric(cells@),
                    forall|i: int| 0 <= i < stack@.len() ==> (#[trigger] stack@[i]) < cells@.len(),
                decreases count_false(visited@), stack@.len(),
            {
                proof {
                    lemma_count_false_nonneg(visited@);
                }
                let current = stack.pop().unwrap();
                let cx = cells[current].x();
                let cy = cells[current].y();

                let mut unvisited: Vec<Direction> = Vec::new();
                let mut j: usize = 0;
                while j < available_directions.len()
                    invariant
                        width <= MAX_MAZE_SIDE,
                        height <= MAX_MAZE_SIDE,
                        cells@.len() == width * height,
                        visited@.len() == cells@.len(),
                        cx < width,
                        cy < height,
                        j <= available_directions@.len(),
                        forall|k: int|
                            0 <= k < unvisited@.len() ==> neighbor_in_grid(
                                cx as int,
                                cy as int,
                                #[trigger] unvisited@[k],
                                width as int,
                                height as int,
                            ),
                        forall|k: int|
                            0 <= k < unvisited@.len() ==> !visited@[(cy
                                + (#[trigger] unvisited@[k]).offset_spec().1) * width + (cx
                                + unvisited@[k].offset_spec().0)],
                    decreases available_directions@.len() - j,
                {
                    let d = available_directions[j];
                    let (dx, dy) = d.as_offset();
                    let nx = cx as i64 + dx as i64;
                    let ny = cy as i64 + dy as i64;
                    if nx >= 0 && ny >= 0 && nx < width as i64 && ny < height as i64 {
                        let nxu = nx as usize;
                        let nyu = ny as usize;
                        proof {
                            lemma_grid_index(width as int, height as int, nxu as int, nyu as int);
                        }
                        let nidx = nyu * width + nxu;
                        if !visited[nidx] {
                            unvisited.push(d);
                        }
                    }
                    j += 1;
                }

                if unvisited.len() > 0 {
                    stack.push(current);
                    let k = rng.range(0, unvisited.len());
                    let chosen = unvisited[k];
                    let opposite = chosen.opposite();
                    let (dx, dy) = chosen.as_offset();
                    proof {
                        assert(neighbor_in_grid(
                            cx as int,
                            cy as int,
                            chosen,
                            width as int,
                            height as int,
                        ));
                    }
                    let nx = (cx as i64 + dx as i64) as usize;
                    let ny = (cy as i64 + dy as i64) as usize;
                    proof {
                        lemma_grid_index(width as int, height as int, nx as int, ny as int);
                    }
                    let nidx = ny * width + nx;
                    let ghost cells_pre = cells@;
                    let c1 = &mut cells[current];
                    c1.remove_wall(chosen);
                    let c2 = &mut cells[nidx];
                    c2.remove_wall(opposite);
                    proof {
                        assert(!visited@[nidx as int]);
                        lemma_count_false_update(visited@, nidx as int);
                    }
                    visited[nidx] = true;
                    proof {
                        lemma_count_false_nonneg(visited@);
                    }
                    stack.push(nidx);
                    proof {
                        assert forall|i: int|
                            0 <= i < cells@.len() implies (#[trigger] cells@[i]).x_spec() < width
                            && cells@[i].y_spec() < height by {}
                        assert forall|x0: int, y0: int|
                            0 <= x0 < width && 0 <= y0 < height implies (#[trigger] cells@[y0
                            * width + x0]).x_spec() == x0 && cells@[y0 * width + x0].y_spec()
                            == y0 by {
                            lemma_grid_index(width as int, height as int, x0, y0);
                            assert(cells_pre[y0 * width + x0].x_spec() == x0);
                        }
                        assert(cells@[nidx as int].x_spec() == nx && cells@[nidx as int].y_spec()
                            == ny);
                        assert(cells@[current as int].x_spec() == cx && cells@[current as int].y_spec()
                            == cy);
                        assert forall|i: int, d: Direction|
                            0 <= i < cells@.len() && !(#[trigger] cells@[i].wall_spec(
                                d,
                            )) implies exists|j: int|
                            0 <= j < cells@.len() && (#[trigger] cells@[j]).x_spec()
                                == cells@[i].x_spec() + d.offset_spec().0 && cells@[j].y_spec()
                                == cells@[i].y_spec() + d.offset_spec().1 && !cells@[j].wall_spec(
                                d.opposite_spec(),
                            ) by {
                            if i == current && d == chosen {
                                assert(cells@[nidx as int].x_spec() == cells@[i].x_spec()
                                    + d.offset_spec().0);
                                assert(!cells@[nidx as int].wall_spec(d.opposite_spec()));
                            } else if i == nidx && d == opposite {
                                assert(chosen.offset_spec().0 + opposite.offset_spec().0 == 0);
                                assert(cells@[current as int].x_spec() == cells@[i].x_spec()
                                    + d.offset_spec().0);
                                assert(cells@[current as int].y_spec() == cells@[i].y_spec()
                                    + d.offset_spec().1);
                                assert(!cells@[current as int].wall_spec(d.opposite_spec()));
                            } else {
                                assert(!cells_pre[i].wall_spec(d));
                                let j = choose|j: int|
                                    0 <= j < cells_pre.len() && (#[trigger] cells_pre[j]).x_spec()
                                        == cells_pre[i].x_spec() + d.offset_spec().0
                                        && cells_pre[j].y_spec() == cells_pre[i].y_spec()
                                        + d.offset_spec().1 && !cells_pre[j].wall_spec(
                                        d.opposite_spec(),
                                    );
                                assert(cells@[j].x_spec() == cells@[i].x_spec()
                                    + d.offset_spec().0);
                                assert(cells@[j].y_spec() == cells@[i].y_spec()
                                    + d.offset_spec().1);
                                assert(!cells@[j].wall_spec(d.opposite_spec()));
                            }
                        }
                    }
                }
            }
        },
        MazeGenerationAlgorithm::Wilson => {},
    }

    cells
}

/// The top-left pixel of a logical cell under the given layout style.
fn cell_pixel(style: &MazeImageStyle, x: usize, y: usize) -> (r: (usize, usize))
    requires
        x <= 2 * MAX_MAZE_SIDE,
        y <= 2 * MAX_MAZE_SIDE,
    ensures
        r.0 <= 4 * 2 * MAX_MAZE_SIDE + 2,
        r.1 <= 4 * 2 * MAX_MAZE_SIDE,
{
    let step: usize = 4;
    match style {
        MazeImageStyle::Straight => (step * x, step * y),
        MazeImageStyle::Seasaw => (step * x + WALL_SIZE * (y % 2), step * y),
    }
}

/// A cell that may host the power-up: valid and far from all four door
/// cells.
pub open spec fn pu_candidate(
    valid: Set<(int, int)>,
    e0: Position,
    e1: Position,
    x0: Position,
    x1: Position,
    q: (int, int),
) -> bool {
    &&& valid.contains(q)
    &&& dist2(q, pos_int(e0)) > 36
    &&& dist2(q, pos_int(e1)) > 36
    &&& dist2(q, pos_int(x0)) > 36
    &&& dist2(q, pos_int(x1)) > 36
}

/// Whether some entry of the list denotes the point `q`.
pub open spec fn in_list(s: Seq<Position>, q: (int, int)) -> bool {
    exists|k: int| 0 <= k < s.len() && pos_int(#[trigger] s[k]) == q
}

/// One level of the maze ladder: an immutable-once-built pixel grid of valid
/// cells with an entrance pair on the west edge, an exit pair on the east
/// edge, at most one power-up cell, a pass/attempt counter pair, and a
/// permanent cache of visibility results.
pub struct Maze {
    id: usize,
    random_seed: u64,
    width: usize,
    height: usize,
    generation_algorithm: MazeGenerationAlgorithm,
    topology: MazeTopology,
    image_style: MazeImageStyle,
    valid: CellSet,
    entrance: Vec<Position>,
    exit: Vec<Position>,
    power_up: Option<Position>,
    cache: Vec<(VisKey, CellSet)>,
    passed: usize,
    attempted: usize,
}

impl Maze {
    pub closed spec fn id_spec(self) -> usize {
        self.id
    }

    pub closed spec fn seed_spec(self) -> u64 {
        self.random_seed
    }

    pub closed spec fn width_spec(self) -> usize {
        self.width
    }

    pub closed spec fn height_spec(self) -> usize {
        self.height
    }

    /// Pixel width of the rasterized maze.
    pub closed spec fn px_width_spec(self) -> usize {
        self.valid.width_spec()
    }

    /// Pixel height of the rasterized maze.
    pub closed spec fn px_height_spec(self) -> usize {
        self.valid.height_spec()
    }

    /// The valid-cell set: every position a body can occupy.
    pub closed spec fn valid_set(self) -> Set<(int, int)> {
        self.valid.set()
    }

    pub closed spec fn entrance_seq(self) -> Seq<Position> {
        self.entrance@
    }

    pub closed spec fn exit_seq(self) -> Seq<Position> {
        self.exit@
    }

    pub closed spec fn power_up_spec(self) -> Option<Position> {
        self.power_up
    }

    pub closed spec fn passed_spec(self) -> usize {
        self.passed
    }

    pub closed spec fn attempted_spec(self) -> usize {
        self.attempted
    }

    /// Far enough from every entrance and exit cell to host the power-up.
    pub open spec fn far_from_specials(self, q: (int, int)) -> bool {
        &&& dist2(q, pos_int(self.entrance_seq()[0])) > 36
        &&& dist2(q, pos_int(self.entrance_seq()[1])) > 36
        &&& dist2(q, pos_int(self.exit_seq()[0])) > 36
        &&& dist2(q, pos_int(self.exit_seq()[1])) > 36
    }

    /// The visibility result a cached entry must hold for its key.
    pub open spec fn entry_spec(self, k: VisKey) -> Set<(int, int)> {
        visible_spec(
            self.valid_set(),
            self.px_width_spec() as int,
            self.px_height_spec() as int,
            (k.x as int, k.y as int),
            k.direction,
            k.view,
        )
    }

    closed spec fn cache_entry_wf(self, i: int) -> bool {
        &&& self.cache@[i].1.wf()
        &&& self.cache@[i].1.width_spec() == self.px_width_spec()
        &&& self.cache@[i].1.height_spec() == self.px_height_spec()
        &&& self.cache@[i].1.set() == self.entry_spec(self.cache@[i].0)
    }

    /// Whether a visibility result for this observer key has been computed
    /// and memoized.
    pub closed spec fn cached(self, position: Position, direction: Direction, view: View) -> bool {
        exists|i: int|
            0 <= i < self.cache@.len() && (#[trigger] self.cache@[i]).0 == (VisKey {
                x: position.0,
                y: position.1,
                direction,
                view,
            })
    }

    /// Everything immutable after construction: the geometry, identity and
    /// special cells. Only counters and the cache may change.
    pub open spec fn same_geometry(self, other: Maze) -> bool {
        &&& self.id_spec() == other.id_spec()
        &&& self.seed_spec() == other.seed_spec()
        &&& self.width_spec() == other.width_spec()
        &&& self.height_spec() == other.height_spec()
        &&& self.px_width_spec() == other.px_width_spec()
        &&& self.px_height_spec() == other.px_height_spec()
        &&& self.valid_set() == other.valid_set()
        &&& self.entrance_seq() == other.entrance_seq()
        &&& self.exit_seq() == other.exit_seq()
        &&& self.power_up_spec() == other.power_up_spec()
    }

    /// Structural well-formedness: dimensions agree, the entrance and exit
    /// are vertically adjacent pairs on the west and east boundary, exit
    /// cells are always valid (entrance cells whenever the maze is not the
    /// starting one), the power-up sits on a valid cell far from both doors,
    /// and every cache entry holds exactly the visibility result of its key.
    pub closed spec fn wf(self) -> bool {
        &&& 1 <= self.width <= MAX_MAZE_SIDE
        &&& 1 <= self.height <= MAX_MAZE_SIDE
        &&& self.valid.wf()
        &&& self.valid.width_spec() == 4 * self.width + 4
        &&& self.valid.height_spec() == 4 * self.height + 2
        &&& self.entrance@.len() == 2
        &&& self.exit@.len() == 2
        &&& self.entrance@[0].0 == 0
        &&& self.entrance@[1].0 == 0
        &&& self.entrance@[1].1 == self.entrance@[0].1 + 1
        &&& self.entrance@[0].1 + 1 < self.valid.height_spec()
        &&& self.exit@[0].0 == self.valid.width_spec() - 1
        &&& self.exit@[1].0 == self.valid.width_spec() - 1
        &&& self.exit@[1].1 == self.exit@[0].1 + 1
        &&& self.exit@[0].1 + 1 < self.valid.height_spec()
        &&& self.valid.set().contains(pos_int(self.exit@[0]))
        &&& self.valid.set().contains(pos_int(self.exit@[1]))
        &&& (self.id > 0 ==> self.valid.set().contains(pos_int(self.entrance@[0]))
            && self.valid.set().contains(pos_int(self.entrance@[1])))
        &&& (match self.power_up {
            Some(p) => self.valid.set().contains(pos_int(p)) && self.far_from_specials(pos_int(p)),
            None => true,
        })
        &&& forall|i: int| 0 <= i < self.cache@.len() ==> #[trigger] self.cache_entry_wf(i)
    }

    /// Visibility is a function of the immutable geometry and the observer
    /// key alone: two mazes with the same geometry -- in particular, one
    /// maze before and after any sequence of cache or counter updates --
    /// give identical visible-cell sets for identical keys. Hence computing
    /// and caching twice with the same key returns identical sets.
    pub proof fn lemma_visibility_deterministic(m1: Maze, m2: Maze, k: VisKey)
        requires
            m1.same_geometry(m2),
        ensures
            m1.entry_spec(k) == m2.entry_spec(k),
    {
    }

    /// Facts every well-formed maze grants its callers: small pixel
    /// dimensions, the door pairs' shape and placement, and valid cells kept
    /// within bounds.
    pub proof fn lemma_maze_facts(self)
        requires
            self.wf(),
        ensures
            8 <= self.px_width_spec() <= 260,
            6 <= self.px_height_spec() <= 258,
            self.px_width_spec() == 4 * self.width_spec() + 4,
            self.px_height_spec() == 4 * self.height_spec() + 2,
            self.entrance_seq().len() == 2,
            self.exit_seq().len() == 2,
            self.entrance_seq()[0].0 == 0,
            self.entrance_seq()[1].0 == 0,
            self.entrance_seq()[1].1 == self.entrance_seq()[0].1 + 1,
            self.entrance_seq()[0].1 + 1 < self.px_height_spec(),
            self.exit_seq()[0].0 == self.px_width_spec() - 1,
            self.exit_seq()[1].0 == self.px_width_spec() - 1,
            self.exit_seq()[1].1 == self.exit_seq()[0].1 + 1,
            self.exit_seq()[0].1 + 1 < self.px_height_spec(),
            self.valid_set().contains(pos_int(self.exit_seq()[0])),
            self.valid_set().contains(pos_int(self.exit_seq()[1])),
            self.id_spec() > 0 ==> self.valid_set().contains(pos_int(self.entrance_seq()[0]))
                && self.valid_set().contains(pos_int(self.entrance_seq()[1])),
            forall|q: (int, int)| #[trigger]
                self.valid_set().contains(q) ==> 0 <= q.0 < self.px_width_spec() && 0 <= q.1
                    < self.px_height_spec(),
            match self.power_up_spec() {
                Some(p) => self.valid_set().contains(pos_int(p)) && self.far_from_specials(
                    pos_int(p),
                ),
                None => true,
            },
    {
        crate::cellset::lemma_cellset_bounds(self.valid);
    }

    pub fn id(&self) -> (r: usize)
        ensures
            r == self.id_spec(),
    {
        self.id
    }

    pub fn width(&self) -> (r: usize)
        ensures
            r == self.width_spec(),
    {
        self.width
    }

    pub fn height(&self) -> (r: usize)
        ensures
            r == self.height_spec(),
    {
        self.height
    }

    pub fn px_width(&self) -> (r: usize)
        ensures
            r == self.px_width_spec(),
    {
        self.valid.width()
    }

    pub fn px_height(&self) -> (r: usize)
        ensures
            r == self.px_height_spec(),
    {
        self.valid.height()
    }

    pub fn power_up_position(&self) -> (r: Option<Position>)
        ensures
            r == self.power_up_spec(),
    {
        self.power_up
    }

    /// Whether a body can occupy this position.
    pub fn is_valid_position(&self, position: Position) -> (r: bool)
        requires
            self.wf(),
        ensures
            r == self.valid_set().contains(pos_int(position)),
    {
        self.valid.contains(position.0, position.1)
    }

    pub fn is_entrance_position(&self, position: Position) -> (r: bool)
        requires
            self.wf(),
        ensures
            r == (position == self.entrance_seq()[0] || position == self.entrance_seq()[1]),
    {
        let e0 = self.entrance[0];
        let e1 = self.entrance[1];
        (position.0 == e0.0 && position.1 == e0.1) || (position.0 == e1.0 && position.1 == e1.1)
    }

    pub fn is_exit_position(&self, position: Position) -> (r: bool)
        requires
            self.wf(),
        ensures
            r == (position == self.exit_seq()[0] || position == self.exit_seq()[1]),
    {
        let e0 = self.exit[0];
        let e1 = self.exit[1];
        (position.0 == e0.0 && position.1 == e0.1) || (position.0 == e1.0 && position.1 == e1.1)
    }

    pub fn entrance_positions(&self) -> (r: &Vec<Position>)
        ensures
            r@ == self.entrance_seq(),
    {
        &self.entrance
    }

    pub fn exit_positions(&self) -> (r: &Vec<Position>)
        ensures
            r@ == self.exit_seq(),
    {
        &self.exit
    }

    /// Where a newly arrived hero stands: one cell east of one of the two
    /// entrance cells, picked at random.
    pub fn hero_starting_position(&self) -> (r: Position)
        requires
            self.wf(),
        ensures
            exists|i: int|
                0 <= i < 2 && r.0 == (#[trigger] self.entrance_seq()[i]).0 + 1 && r.1
                    == self.entrance_seq()[i].1,
    {
        let i = random_below(2);
        let (x, y) = self.entrance[i];
        proof {
            assert(x < usize::MAX) by {
                assert(self.entrance@[i as int].0 == 0);
            }
        }
        let r = (x + 1, y);
        proof {
            assert(r.0 == (self.entrance_seq()[i as int]).0 + 1 && r.1
                == self.entrance_seq()[i as int].1);
        }
        r
    }

    /// One more attempt recorded for the displayed success rate.
    pub fn increase_attempted(&mut self)
        requires
            old(self).wf(),
        ensures
            final(self).wf(),
            final(self).same_geometry(*old(self)),
            final(self).passed_spec() == old(self).passed_spec(),
            final(self).attempted_spec() == if old(self).attempted_spec() < usize::MAX {
                old(self).attempted_spec() + 1
            } else {
                old(self).attempted_spec() as int
            },
            forall|p: Position, d: Direction, v: View|
                #[trigger] old(self).cached(p, d, v) ==> final(self).cached(p, d, v),
    {
        if self.attempted < usize::MAX {
            self.attempted = self.attempted + 1;
        }
        proof {
            assert forall|i: int| 0 <= i < self.cache@.len() implies #[trigger] self.cache_entry_wf(
                i,
            ) by {
                assert(old(self).cache_entry_wf(i));
            }
        }
    }

    /// One attempt withdrawn (a hero retreated); never goes below zero.
    pub fn decrease_attempted(&mut self)
        requires
            old(self).wf(),
        ensures
            final(self).wf(),
            final(self).same_geometry(*old(self)),
            final(self).passed_spec() == old(self).passed_spec(),
            final(self).attempted_spec() == if old(self).attempted_spec() > 0 {
                (old(self).attempted_spec() - 1) as usize
            } else {
                0usize
            },
            forall|p: Position, d: Direction, v: View|
                #[trigger] old(self).cached(p, d, v) ==> final(self).cached(p, d, v),
    {
        if self.attempted > 0 {
            self.attempted = self.attempted - 1;
        }
        proof {
            assert forall|i: int| 0 <= i < self.cache@.len() implies #[trigger] self.cache_entry_wf(
                i,
            ) by {
                assert(old(self).cache_entry_wf(i));
            }
        }
    }

    /// One more pass recorded for the displayed success rate.
    pub fn increase_passed(&mut self)
        requires
            old(self).wf(),
        ensures
            final(self).wf(),
            final(self).same_geometry(*old(self)),
            final(self).attempted_spec() == old(self).attempted_spec(),
            final(self).passed_spec() == if old(self).passed_spec() < usize::MAX {
                old(self).passed_spec() + 1
            } else {
                old(self).passed_spec() as int
            },
            forall|p: Position, d: Direction, v: View|
                #[trigger] old(self).cached(p, d, v) ==> final(self).cached(p, d, v),
    {
        if self.passed < usize::MAX {
            self.passed = self.passed + 1;
        }
        proof {
            assert forall|i: int| 0 <= i < self.cache@.len() implies #[trigger] self.cache_entry_wf(
                i,
            ) by {
                assert(old(self).cache_entry_wf(i));
            }
        }
    }

    /// One pass withdrawn (a hero regressed); never goes below zero.
    pub fn decrease_passed(&mut self)
        requires
            old(self).wf(),
        ensures
            final(self).wf(),
            final(self).same_geometry(*old(self)),
            final(self).attempted_spec() == old(self).attempted_spec(),
            final(self).passed_spec() == if old(self).passed_spec() > 0 {
                (old(self).passed_spec() - 1) as usize
            } else {
                0usize
            },
            forall|p: Position, d: Direction, v: View|
                #[trigger] old(self).cached(p, d, v) ==> final(self).cached(p, d, v),
    {
        if self.passed > 0 {
            self.passed = self.passed - 1;
        }
        proof {
            assert forall|i: int| 0 <= i < self.cache@.len() implies #[trigger] self.cache_entry_wf(
                i,
            ) by {
                assert(old(self).cache_entry_wf(i));
            }
        }
    }

    pub fn success_rate(&self) -> (r: (usize, usize))
        ensures
            r.0 == self.passed_spec(),
            r.1 == self.attempted_spec(),
    {
        (self.passed, self.attempted)
    }

    /// Generate a maze: carve the spanning tree, rasterize it, punch the
    /// entrance and exit, add random rooms (cycles are intentional: pure
    /// trees feel too railroaded for a chase), and place the power-up on
    /// some valid cell far from both doors, exactly when one exists.
    #[verifier::loop_isolation(false)]
    #[verifier::rlimit(80)]
    pub fn new(
        id: usize,
        random_seed: u64,
        width: usize,
        height: usize,
        entrance: Option<usize>,
        exit: Option<usize>,
        generation_algorithm: MazeGenerationAlgorithm,
        topology: MazeTopology,
        image_style: MazeImageStyle,
    ) -> (r: Maze)
        requires
            1 <= width <= MAX_MAZE_SIDE,
            1 <= height <= MAX_MAZE_SIDE,
            entrance matches Some(y) ==> y + 2 <= 4 * height + 2,
            entrance is None ==> height >= 2,
            exit matches Some(y) ==> y + 2 <= 4 * height + 2,
            exit is None ==> height >= 2,
        ensures
            r.wf(),
            r.id_spec() == id,
            r.seed_spec() == random_seed,
            r.width_spec() == width,
            r.height_spec() == height,
            r.px_width_spec() == 4 * width + 4,
            r.px_height_spec() == 4 * height + 2,
            r.attempted_spec() == 0,
            r.passed_spec() == 0,
            entrance matches Some(y) ==> r.entrance_seq()[0] == (0usize, y) && r.entrance_seq()[1]
                == (0usize, (y + 1) as usize),
            exit matches Some(y) ==> r.exit_seq()[0] == (((4 * width + 3) as usize, y)) && r.exit_seq()[1]
                == ((4 * width + 3) as usize, (y + 1) as usize),
            (r.power_up_spec() is Some) <==> exists|q: (int, int)| #[trigger]
                r.valid_set().contains(q) && r.far_from_specials(q),
    {
        let px_w = 4 * width + 4;
        let px_h = 4 * height + 2;
        let mut rng = SeededRng::new(random_seed);
        let cells = generate_cells(width, height, &generation_algorithm, &topology, &mut rng);
        proof {
            assert(px_w * px_h <= 10000000) by (nonlinear_arith)
                requires
                    px_w <= 260,
                    px_h <= 258,
            ;
        }
        let mut valid = CellSet::empty(px_w, px_h);

        // Cell interiors: open whenever the cell has at least one missing
        // wall.
        let mut i: usize = 0;
        while i < cells.len()
            invariant
                valid.wf(),
                valid.width_spec() == px_w,
                valid.height_spec() == px_h,
                i <= cells@.len(),
            decreases cells@.len() - i,
        {
            let c = cells[i];
            let (bx, by) = cell_pixel(&image_style, c.x(), c.y());
            if c.number_of_walls() < MAX_NUMBER_OF_WALLS {
                valid.insert(bx + 2, by + 2);
                valid.insert(bx + 3, by + 2);
                valid.insert(bx + 2, by + 3);
                valid.insert(bx + 3, by + 3);
            }
            i += 1;
        }

        // Corridors: each missing wall opens the pixels between the two
        // cells; diagonal corridors get two extra corner pixels.
        let available_directions = topology.available_directions();
        let mut i: usize = 0;
        while i < cells.len()
            invariant
                valid.wf(),
                valid.width_spec() == px_w,
                valid.height_spec() == px_h,
                i <= cells@.len(),
            decreases cells@.len() - i,
        {
            let c = cells[i];
            let (bx, by) = cell_pixel(&image_style, c.x(), c.y());
            let mut j: usize = 0;
            while j < available_directions.len()
                invariant
                    valid.wf(),
                    valid.width_spec() == px_w,
                    valid.height_spec() == px_h,
                    j <= available_directions@.len(),
                    bx <= 4 * 2 * MAX_MAZE_SIDE + 2,
                    by <= 4 * 2 * MAX_MAZE_SIDE,
                decreases available_directions@.len() - j,
            {
                let d = available_directions[j];
                if !c.has_wall(d) {
                    match d {
                        Direction::North => {
                            valid.insert(bx + 2, by);
                            valid.insert(bx + 3, by);
                            valid.insert(bx + 2, by + 1);
                            valid.insert(bx + 3, by + 1);
                        },
                        Direction::East => {
                            valid.insert(bx + 4, by + 2);
                            valid.insert(bx + 5, by + 2);
                            valid.insert(bx + 4, by + 3);
                            valid.insert(bx + 5, by + 3);
                        },
                        Direction::South => {
                            valid.insert(bx + 2, by + 4);
                            valid.insert(bx + 3, by + 4);
                            valid.insert(bx + 2, by + 5);
                            valid.insert(bx + 3, by + 5);
                        },
                        Direction::West => {
                            valid.insert(bx, by + 2);
                            valid.insert(bx + 1, by + 2);
                            valid.insert(bx, by + 3);
                            valid.insert(bx + 1, by + 3);
                        },
                        Direction::NorthEast => {
                            valid.insert(bx + 4, by);
                            valid.insert(bx + 5, by);
                            valid.insert(bx + 4, by + 1);
                            valid.insert(bx + 5, by + 1);
                            valid.insert(bx + 3, by + 1);
                            valid.insert(bx + 4, by + 2);
                        },
                        Direction::SouthEast => {
                            valid.insert(bx + 4, by + 4);
                            valid.insert(bx + 5, by + 4);
                            valid.insert(bx + 4, by + 5);
                            valid.insert(bx + 5, by + 5);
                            valid.insert(bx + 3, by + 4);
                            valid.insert(bx + 4, by + 3);
                        },
                        Direction::SouthWest => {
                            valid.insert(bx, by + 4);
                            valid.insert(bx + 1, by + 4);
                            valid.insert(bx, by + 5);
                            valid.insert(bx + 1, by + 5);
                            valid.insert(bx + 1, by + 3);
                            valid.insert(bx + 2, by + 4);
                        },
                        Direction::NorthWest => {
                            valid.insert(bx, by);
                            valid.insert(bx + 1, by);
                            valid.insert(bx, by + 1);
                            valid.insert(bx + 1, by + 1);
                            valid.insert(bx + 2, by + 1);
                            valid.insert(bx + 1, by + 2);
                        },
                    }
                }
                j += 1;
            }
            i += 1;
        }

        // A fresh deterministic stream drives entrance, exit and rooms, as
        // carving consumed an input-dependent amount of the first one.
        let mut rng2 = SeededRng::new(random_seed);

        // Entrance: a vertically adjacent pair on the west edge; carve
        // rightward until the corridor meets open cells. The starting maze
        // keeps its west wall closed.
        let entrance_y = match entrance {
            Some(y) => y,
            None => rng2.range(2, 4 * height - 3) / 2 * 2,
        };
        let mut x: usize = 0;
        let mut found = false;
        while x < px_w && !found
            invariant
                valid.wf(),
                valid.width_spec() == px_w,
                valid.height_spec() == px_h,
                entrance_y + 1 < px_h,
                x <= px_w,
                id > 0 && x > 0 ==> valid.set().contains((0int, entrance_y as int))
                    && valid.set().contains((0int, entrance_y as int + 1)),
                found ==> valid.set().contains((x as int, entrance_y as int)) && valid.set().contains(
                    (x as int, entrance_y as int + 1),
                ),
            decreases px_w - x, (if found { 0int } else { 1int }),
        {
            if valid.contains(x, entrance_y) && valid.contains(x, entrance_y + 1) {
                found = true;
            } else {
                if id > 0 {
                    valid.insert(x, entrance_y);
                    valid.insert(x, entrance_y + 1);
                }
                x += 1;
            }
        }
        let mut entrance_cells: Vec<Position> = Vec::new();
        entrance_cells.push((0, entrance_y));
        entrance_cells.push((0, entrance_y + 1));
        let ghost e_valid = id > 0 ==> valid.set().contains((0int, entrance_y as int))
            && valid.set().contains((0int, entrance_y as int + 1));
        proof {
            assert(e_valid);
        }

        // Exit: the symmetric pair on the east edge, carved leftward.
        let exit_y = match exit {
            Some(y) => y,
            None => rng2.range(2, 4 * height - 3) / 2 * 2,
        };
        let mx = px_w - 1;
        let mut x: usize = mx;
        let mut done = false;
        while !done
            invariant
                valid.wf(),
                valid.width_spec() == px_w,
                valid.height_spec() == px_h,
                exit_y + 1 < px_h,
                x <= mx < px_w,
                (x < mx || done) ==> valid.set().contains((mx as int, exit_y as int))
                    && valid.set().contains((mx as int, exit_y as int + 1)),
                id > 0 ==> valid.set().contains((0int, entrance_y as int)) && valid.set().contains(
                    (0int, entrance_y as int + 1),
                ),
            decreases x, (if done { 0int } else { 1int }),
        {
            if valid.contains(x, exit_y) && valid.contains(x, exit_y + 1) {
                done = true;
            } else {
                valid.insert(x, exit_y);
                valid.insert(x, exit_y + 1);
                if x == 0 {
                    done = true;
                } else {
                    x -= 1;
                }
            }
        }
        let mut exit_cells: Vec<Position> = Vec::new();
        exit_cells.push((mx, exit_y));
        exit_cells.push((mx, exit_y + 1));

        // Random rooms: open rectangles that break the spanning-tree
        // property and add cycles and open areas. Count and size grow with
        // the maze dimensions.
        let wh = width + height;
        let rooms_hi = if wh / 3 > 5 {
            wh / 3
        } else {
            5
        };
        let number_of_rooms = rng2.range(4, rooms_hi + 1);
        let mut rix: usize = 0;
        while rix < number_of_rooms
            invariant
                valid.wf(),
                valid.width_spec() == px_w,
                valid.height_spec() == px_h,
                valid.set().contains((mx as int, exit_y as int)),
                valid.set().contains((mx as int, exit_y as int + 1)),
                id > 0 ==> valid.set().contains((0int, entrance_y as int)) && valid.set().contains(
                    (0int, entrance_y as int + 1),
                ),
            decreases number_of_rooms - rix,
        {
            let side_hi = if wh / 8 > 5 {
                wh / 8
            } else {
                5
            };
            let room_width = rng2.range(4, side_hi + 1);
            let room_height = rng2.range(4, side_hi + 1);
            let cx_hi = {
                let s = if width > room_width + WALL_SIZE {
                    width - (room_width + WALL_SIZE)
                } else {
                    0
                };
                if s > WALL_SIZE + 1 {
                    s
                } else {
                    WALL_SIZE + 1
                }
            };
            let cy_hi = {
                let s = if height > room_height + WALL_SIZE {
                    height - (room_height + WALL_SIZE)
                } else {
                    0
                };
                if s > WALL_SIZE + 1 {
                    s
                } else {
                    WALL_SIZE + 1
                }
            };
            let cell_x = rng2.range(WALL_SIZE, cx_hi);
            let cell_y = rng2.range(WALL_SIZE, cy_hi);
            let (room_x, room_y) = cell_pixel(&image_style, cell_x, cell_y);
            let mut dy: usize = 0;
            while dy < room_height
                invariant
                    valid.wf(),
                    valid.width_spec() == px_w,
                    valid.height_spec() == px_h,
                    valid.set().contains((mx as int, exit_y as int)),
                    valid.set().contains((mx as int, exit_y as int + 1)),
                    id > 0 ==> valid.set().contains((0int, entrance_y as int))
                        && valid.set().contains((0int, entrance_y as int + 1)),
                    room_x <= 4 * 2 * MAX_MAZE_SIDE + 2,
                    room_y <= 4 * 2 * MAX_MAZE_SIDE,
                    dy <= room_height <= 16,
                decreases room_height - dy,
            {
                let mut dx: usize = 0;
                while dx < room_width
                    invariant
                        valid.wf(),
                        valid.width_spec() == px_w,
                        valid.height_spec() == px_h,
                        valid.set().contains((mx as int, exit_y as int)),
                        valid.set().contains((mx as int, exit_y as int + 1)),
                        id > 0 ==> valid.set().contains((0int, entrance_y as int))
                            && valid.set().contains((0int, entrance_y as int + 1)),
                        room_x <= 4 * 2 * MAX_MAZE_SIDE + 2,
                        room_y <= 4 * 2 * MAX_MAZE_SIDE,
                        dy <= 16,
                        dx <= room_width <= 16,
                    decreases room_width - dx,
                {
                    valid.insert(room_x + dx, room_y + dy);
                    dx += 1;
                }
                dy += 1;
            }
            rix += 1;
        }

        // Power-up: uniformly among the valid cells far enough from both
        // doors; absent exactly when no such cell exists.
        let e0 = entrance_cells[0];
        let e1 = entrance_cells[1];
        let x0 = exit_cells[0];
        let x1 = exit_cells[1];
        let mut candidates: Vec<Position> = Vec::new();
        proof {
            crate::cellset::lemma_cellset_bounds(valid);
        }
        let mut sy: usize = 0;
        while sy < px_h
            invariant
                valid.wf(),
                valid.width_spec() == px_w,
                valid.height_spec() == px_h,
                e0.0 < 30000 && e0.1 < 30000 && e1.0 < 30000 && e1.1 < 30000,
                x0.0 < 30000 && x0.1 < 30000 && x1.0 < 30000 && x1.1 < 30000,
                sy <= px_h,
                forall|k: int|
                    0 <= k < candidates@.len() ==> pu_candidate(
                        valid.set(),
                        e0,
                        e1,
                        x0,
                        x1,
                        pos_int(#[trigger] candidates@[k]),
                    ),
                forall|q: (int, int)|
                    #[trigger] pu_candidate(valid.set(), e0, e1, x0, x1, q) && q.1 < sy
                        ==> in_list(candidates@, q),
            decreases px_h - sy,
        {
            let mut sx: usize = 0;
            while sx < px_w
                invariant
                    valid.wf(),
                    valid.width_spec() == px_w,
                    valid.height_spec() == px_h,
                    e0.0 < 30000 && e0.1 < 30000 && e1.0 < 30000 && e1.1 < 30000,
                    x0.0 < 30000 && x0.1 < 30000 && x1.0 < 30000 && x1.1 < 30000,
                    sy < px_h,
                    sx <= px_w,
                    forall|k: int|
                        0 <= k < candidates@.len() ==> pu_candidate(
                            valid.set(),
                            e0,
                            e1,
                            x0,
                            x1,
                            pos_int(#[trigger] candidates@[k]),
                        ),
                    forall|q: (int, int)|
                        #[trigger] pu_candidate(valid.set(), e0, e1, x0, x1, q) && (q.1 < sy || (
                        q.1 == sy && q.0 < sx)) ==> in_list(candidates@, q),
                decreases px_w - sx,
            {
                let ghost cands_pre = candidates@;
                if valid.contains(sx, sy) && distance_squared((sx, sy), e0) > 36
                    && distance_squared((sx, sy), e1) > 36 && distance_squared((sx, sy), x0) > 36
                    && distance_squared((sx, sy), x1) > 36 {
                    candidates.push((sx, sy));
                }
                proof {
                    assert forall|q: (int, int)|
                        #[trigger] pu_candidate(valid.set(), e0, e1, x0, x1, q) && (q.1 < sy || (
                        q.1 == sy && q.0 < sx + 1)) implies in_list(candidates@, q) by {
                        if q.1 < sy || (q.1 == sy && q.0 < sx) {
                            assert(in_list(cands_pre, q));
                            let k = choose|k: int|
                                0 <= k < cands_pre.len() && pos_int(#[trigger] cands_pre[k]) == q;
                            assert(pos_int(candidates@[k]) == q);
                        } else {
                            assert(q == (sx as int, sy as int));
                            let k = candidates@.len() - 1;
                            assert(pos_int(candidates@[k]) == q);
                        }
                    }
                }
                sx += 1;
            }
            sy += 1;
        }
        let power_up = if candidates.len() > 0 {
            let pi = random_below(candidates.len());
            Some(candidates[pi])
        } else {
            None
        };

        let r = Maze {
            id,
            random_seed,
            width,
            height,
            generation_algorithm,
            topology,
            image_style,
            valid,
            entrance: entrance_cells,
            exit: exit_cells,
            power_up,
            cache: Vec::new(),
            passed: 0,
            attempted: 0,
        };
        proof {
            assert forall|q: (int, int)| #[trigger]
                r.valid_set().contains(q) && r.far_from_specials(q) implies in_list(
                candidates@,
                q,
            ) by {
                crate::cellset::lemma_cellset_bounds(r.valid);
                assert(pu_candidate(r.valid_set(), e0, e1, x0, x1, q));
            }
            if candidates@.len() > 0 {
                assert(r.power_up_spec() is Some);
                let p = r.power_up_spec()->Some_0;
                assert(pu_candidate(r.valid_set(), e0, e1, x0, x1, pos_int(p)));
                assert(r.valid_set().contains(pos_int(p)) && r.far_from_specials(pos_int(p)));
            } else {
                if exists|q: (int, int)| #[trigger] r.valid_set().contains(q)
                    && r.far_from_specials(q) {
                    let q = choose|q: (int, int)| #[trigger] r.valid_set().contains(q)
                        && r.far_from_specials(q);
                    assert(in_list(candidates@, q));
                    let k = choose|k: int|
                        0 <= k < candidates@.len() && pos_int(#[trigger] candidates@[k]) == q;
                    assert(false);
                }
            }
        }
        r
    }

    /// A maze for ladder slot `id`, with freshly drawn seed and dimensions;
    /// difficulty (size) grows with the slot index.
    pub fn random(id: usize, entrance: Option<usize>) -> (r: Maze)
        requires
            id <= 20,
            entrance matches Some(y) ==> y + 2 <= 4 * 4 + 2,
        ensures
            r.wf(),
            r.id_spec() == id,
            entrance matches Some(y) ==> r.entrance_seq()[0] == (0usize, y) && r.entrance_seq()[1]
                == (0usize, (y + 1) as usize),
            10 + 2 * (id / 4) <= r.width_spec() <= (if 12 + 2 * (id / 2) < 32 {
                (12 + 2 * (id / 2)) as usize
            } else {
                32usize
            }),
            4 + 2 * (id / 4) <= r.height_spec() <= (if 6 + 2 * (id / 2) < 20 {
                (6 + 2 * (id / 2)) as usize
            } else {
                20usize
            }),
    {
        let seed = crate::rng::random_seed();
        let mut rng = SeededRng::new(seed);
        let w_hi = {
            let t = 12 + 2 * (id / 2);
            if t < 32 {
                t
            } else {
                32
            }
        };
        let width = rng.range(10 + 2 * (id / 4), w_hi + 1);
        let h_hi = {
            let t = 6 + 2 * (id / 2);
            if t < 20 {
                t
            } else {
                20
            }
        };
        let height = rng.range(4 + 2 * (id / 4), h_hi + 1);
        Maze::new(
            id,
            seed,
            width,
            height,
            entrance,
            None,
            MazeGenerationAlgorithm::DepthFirstSearch,
            MazeTopology::Orthogonal,
            MazeImageStyle::Straight,
        )
    }

    /// Whether a pursuer may stand here: a valid cell outside the safe zone
    /// around the entrance where newly arrived heroes spawn.
    pub fn is_valid_minotaur_position(&self, position: Position) -> (r: bool)
        requires
            self.wf(),
            position.0 < 30000,
            position.1 < 30000,
        ensures
            r == (self.valid_set().contains(pos_int(position)) && dist2(
                pos_int(position),
                pos_int(self.entrance_seq()[0]),
            ) > 36 && dist2(pos_int(position), pos_int(self.entrance_seq()[1])) > 36),
    {
        self.valid.contains(position.0, position.1) && distance_squared(position, self.entrance[0])
            > 36 && distance_squared(position, self.entrance[1]) > 36
    }

    /// Compute the visible-cell set for this observer key, memoizing it; a
    /// repeated call with the same key returns the identical set, since the
    /// result is a function of the immutable geometry and the key alone.
    #[verifier::loop_isolation(false)]
    pub fn get_and_cache_visible_positions(
        &mut self,
        position: Position,
        direction: Direction,
        view: View,
    ) -> (r: CellSet)
        requires
            old(self).wf(),
            view.wf(),
            position.0 < old(self).px_width_spec(),
            position.1 < old(self).px_height_spec(),
        ensures
            final(self).wf(),
            final(self).same_geometry(*old(self)),
            final(self).attempted_spec() == old(self).attempted_spec(),
            final(self).passed_spec() == old(self).passed_spec(),
            r.wf(),
            r.width_spec() == old(self).px_width_spec(),
            r.height_spec() == old(self).px_height_spec(),
            r.set() == old(self).entry_spec(
                VisKey { x: position.0, y: position.1, direction, view },
            ),
            final(self).cached(position, direction, view),
            forall|p: Position, d: Direction, v: View|
                #[trigger] old(self).cached(p, d, v) ==> final(self).cached(p, d, v),
    {
        let key = VisKey { x: position.0, y: position.1, direction, view };
        let mut i: usize = 0;
        while i < self.cache.len()
            invariant
                i <= self.cache@.len(),
            decreases self.cache@.len() - i,
        {
            if self.cache[i].0 == key {
                proof {
                    assert(self.cache_entry_wf(i as int));
                }
                return self.cache[i].1.duplicate();
            }
            i += 1;
        }
        let result = match view {
            View::Full => self.valid.duplicate(),
            _ => compute_visible(&self.valid, position, &direction, &view),
        };
        let stored = result.duplicate();
        self.cache.push((key, stored));
        proof {
            assert forall|j: int| 0 <= j < self.cache@.len() implies #[trigger] self.cache_entry_wf(
                j,
            ) by {
                if j < self.cache@.len() - 1 {
                    assert(old(self).cache_entry_wf(j));
                } else {
                    assert(self.cache@[j].0 == key);
                    assert(self.cache@[j].1 == stored);
                }
            }
            assert(self.cache@[self.cache@.len() - 1].0 == key);
            assert forall|p: Position, d: Direction, v: View|
                #[trigger] old(self).cached(p, d, v) implies self.cached(p, d, v) by {
                let j = choose|j: int|
                    0 <= j < old(self).cache@.len() && (#[trigger] old(self).cache@[j]).0
                        == (VisKey { x: p.0, y: p.1, direction: d, view: v });
                assert(self.cache@[j].0 == (VisKey { x: p.0, y: p.1, direction: d, view: v }));
            }
        }
        result
    }

    /// Whether the visibility result for this key is already memoized.
    #[verifier::loop_isolation(false)]
    pub fn is_cached(&self, position: Position, direction: Direction, view: View) -> (r: bool)
        requires
            self.wf(),
        ensures
            r == self.cached(position, direction, view),
    {
        let key = VisKey { x: position.0, y: position.1, direction, view };
        let mut i: usize = 0;
        while i < self.cache.len()
            invariant
                i <= self.cache@.len(),
                forall|j: int| 0 <= j < i ==> (#[trigger] self.cache@[j]).0 != key,
            decreases self.cache@.len() - i,
        {
            if self.cache[i].0 == key {
                return true;
            }
            i += 1;
        }
        proof {
            if self.cached(position, direction, view) {
                let j = choose|j: int|
                    0 <= j < self.cache@.len() && (#[trigger] self.cache@[j]).0 == key;
                assert(false);
            }
        }
        false
    }

    /// Read a previously memoized visibility result. The simulation tick
    /// computes-and-caches after every move, so a read-only consumer must
    /// only ask for keys the tick has already computed.
    #[verifier::loop_isolation(false)]
    pub fn get_cached_visible_positions(
        &self,
        position: Position,
        direction: Direction,
        view: View,
    ) -> (r: CellSet)
        requires
            self.wf(),
            self.cached(position, direction, view),
        ensures
            r.wf(),
            r.width_spec() == self.px_width_spec(),
            r.height_spec() == self.px_height_spec(),
            r.set() == self.entry_spec(VisKey { x: position.0, y: position.1, direction, view }),
    {
        let key = VisKey { x: position.0, y: position.1, direction, view };
        let mut i: usize = 0;
        while i < self.cache.len()
            invariant
                i <= self.cache@.len(),
                forall|j: int| 0 <= j < i ==> (#[trigger] self.cache@[j]).0 != key,
            decreases self.cache@.len() - i,
        {
            if self.cache[i].0 == key {
                proof {
                    assert(self.cache_entry_wf(i as int));
                }
                return self.cache[i].1.duplicate();
            }
            i += 1;
        }
        proof {
            let j = choose|j: int|
                0 <= j < self.cache@.len() && (#[trigger] self.cache@[j]).0 == key;
            assert(false);
        }
        unreached()
    }

    /// Spawn a pursuer for this maze on a uniformly chosen valid cell
    /// outside the entrance safe zone, with difficulty-scaled stats, warming
    /// the visibility cache for its first look around. Yields nothing
    /// exactly when no cell lies far enough from the entrance.
    #[verifier::loop_isolation(false)]
    pub fn spawn_minotaur(&mut self, name: String, now_ms: u64) -> (r: Option<Minotaur>)
        requires
            old(self).wf(),
        ensures
            final(self).wf(),
            final(self).same_geometry(*old(self)),
            final(self).attempted_spec() == old(self).attempted_spec(),
            final(self).passed_spec() == old(self).passed_spec(),
            forall|p: Position, d: Direction, v: View|
                #[trigger] old(self).cached(p, d, v) ==> final(self).cached(p, d, v),
            match r {
                Some(m) => {
                    let id = old(self).id_spec();
                    &&& m.wf()
                    &&& m.maze_id == id
                    &&& m.name@ == name@
                    &&& m.chasing is None
                    &&& m.kills == 0
                    &&& m.direction == Direction::North
                    &&& old(self).valid_set().contains(pos_int(m.position))
                    &&& m.position.0 < old(self).px_width_spec()
                    &&& m.position.1 < old(self).px_height_spec()
                    &&& dist2(pos_int(m.position), pos_int(old(self).entrance_seq()[0])) >= 100
                    &&& m.speed == (if id / 3 < 5 {
                        (id / 3) as u64
                    } else {
                        5u64
                    })
                    &&& m.vision == (if 3 + id / 3 < 6 {
                        (3 + id / 3) as usize
                    } else {
                        6usize
                    })
                    &&& m.aggression == (if id / 2 < 11 {
                        (45 + 5 * (id / 2)) as u64
                    } else {
                        100u64
                    })
                    &&& final(self).cached(
                        m.position,
                        Direction::North,
                        crate::view::view_for_vision_spec(m.vision),
                    )
                },
                None => !exists|q: (int, int)|
                    #[trigger] old(self).valid_set().contains(q) && dist2(
                        q,
                        pos_int(old(self).entrance_seq()[0]),
                    ) >= 100,
            },
    {
        let e0 = self.entrance[0];
        let px_w = self.valid.width();
        let px_h = self.valid.height();
        let ghost vs = self.valid.set();
        let mut candidates: Vec<Position> = Vec::new();
        proof {
            crate::cellset::lemma_cellset_bounds(self.valid);
        }
        let mut sy: usize = 0;
        while sy < px_h
            invariant
                sy <= px_h,
                forall|k: int|
                    0 <= k < candidates@.len() ==> vs.contains(pos_int(#[trigger] candidates@[k]))
                        && dist2(pos_int(candidates@[k]), pos_int(e0)) >= 100,
                forall|q: (int, int)|
                    #[trigger] vs.contains(q) && q.1 < sy && dist2(q, pos_int(e0)) >= 100
                        ==> in_list(candidates@, q),
            decreases px_h - sy,
        {
            let mut sx: usize = 0;
            while sx < px_w
                invariant
                    sy < px_h,
                    sx <= px_w,
                    forall|k: int|
                        0 <= k < candidates@.len() ==> vs.contains(
                            pos_int(#[trigger] candidates@[k]),
                        ) && dist2(pos_int(candidates@[k]), pos_int(e0)) >= 100,
                    forall|q: (int, int)|
                        #[trigger] vs.contains(q) && (q.1 < sy || (q.1 == sy && q.0 < sx)) && dist2(
                            q,
                            pos_int(e0),
                        ) >= 100 ==> in_list(candidates@, q),
                decreases px_w - sx,
            {
                let ghost pre = candidates@;
                if self.valid.contains(sx, sy) && distance_squared((sx, sy), e0) >= 100 {
                    candidates.push((sx, sy));
                }
                proof {
                    assert forall|q: (int, int)|
                        #[trigger] vs.contains(q) && (q.1 < sy || (q.1 == sy && q.0 < sx + 1))
                            && dist2(q, pos_int(e0)) >= 100 implies in_list(candidates@, q) by {
                        if q.1 < sy || (q.1 == sy && q.0 < sx) {
                            assert(in_list(pre, q));
                            let k = choose|k: int|
                                0 <= k < pre.len() && pos_int(#[trigger] pre[k]) == q;
                            assert(pos_int(candidates@[k]) == q);
                        } else {
                            assert(q == (sx as int, sy as int));
                            let k = candidates@.len() - 1;
                            assert(pos_int(candidates@[k]) == q);
                        }
                    }
                }
                sx += 1;
            }
            sy += 1;
        }
        if candidates.len() == 0 {
            proof {
                if exists|q: (int, int)|
                    #[trigger] vs.contains(q) && dist2(q, pos_int(e0)) >= 100 {
                    let q = choose|q: (int, int)|
                        #[trigger] vs.contains(q) && dist2(q, pos_int(e0)) >= 100;
                    assert(in_list(candidates@, q));
                    let k = choose|k: int|
                        0 <= k < candidates@.len() && pos_int(#[trigger] candidates@[k]) == q;
                    assert(false);
                }
            }
            return None;
        }
        let pi = random_below(candidates.len());
        let position = candidates[pi];

        let vision = {
            let t = 3 + self.id / 3;
            if t < 6 {
                t
            } else {
                6
            }
        };
        let speed: u64 = {
            let t = self.id / 3;
            if t < 5 {
                t as u64
            } else {
                5
            }
        };
        let aggression: u64 = {
            let half = if self.id / 2 < 20 {
                self.id / 2
            } else {
                20
            };
            let t = 45 + 5 * (half as u64);
            if t < 100 {
                t
            } else {
                100
            }
        };
        let view = view_for_vision(vision);
        proof {
            crate::cellset::lemma_cellset_bounds(self.valid);
        }
        let _ = self.get_and_cache_visible_positions(position, Direction::North, view);
        Some(Minotaur::new(name, self.id, position, speed, vision, aggression, now_ms))
    }
}

} // verus!
