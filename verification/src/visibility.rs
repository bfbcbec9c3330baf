//! Occlusion- and direction-filtered visibility over a maze's valid-cell set.
//!
//! A bounded view scans every target cell in a square box around the
//! observer, walks the discretized line of sight toward it, and marks each
//! traversed cell until the line hits a wall (walls themselves are seen, just
//! not seen through). Diagonal steps are additionally blocked when both
//! flanking cells are walls, so nothing is seen through the corner where two
//! walls meet. A final pass keeps only cells that the view shape, oriented by
//! the observer's facing, lets through.
use vstd::prelude::*;
use vstd::view::View as _;
use crate::cellset::CellSet;
use crate::direction::Direction;
use crate::line::{bounded_pts, iabs, line_points, line_seq, lv};
use crate::view::View;

verus! {

/// A diagonal step from `a` to `b` is blocked when `b` itself is open but
/// both cells flanking the step are walls.
pub open spec fn diag_blocked(valid: Set<(int, int)>, a: (int, int), b: (int, int)) -> bool {
    let dx = b.0 - a.0;
    let dy = b.1 - a.1;
    &&& iabs(dx) == 1
    &&& iabs(dy) == 1
    &&& valid.contains(b)
    &&& !valid.contains((a.0 + dx, a.1))
    &&& !valid.contains((a.0, a.1 + dy))
}

/// The walk along `l` stops at index `i` when the cell there is a wall, or
/// when the step to the next cell is a blocked diagonal.
pub open spec fn blocked_at(valid: Set<(int, int)>, l: Seq<(int, int)>, i: int) -> bool {
    ||| !valid.contains(l[i])
    ||| (i + 1 < l.len() && diag_blocked(valid, l[i], l[i + 1]))
}

/// Index of the last cell reached when walking `l` from index `i`: the first
/// blocked index, or the end of the line.
pub open spec fn walk_end(valid: Set<(int, int)>, l: Seq<(int, int)>, i: int) -> int
    decreases l.len() - i,
{
    if i >= l.len() - 1 {
        l.len() - 1
    } else if blocked_at(valid, l, i) {
        i
    } else {
        walk_end(valid, l, i + 1)
    }
}

/// The cells of `l` up to and including the walk's stopping point.
pub open spec fn walk_pts(valid: Set<(int, int)>, l: Seq<(int, int)>) -> Set<(int, int)> {
    Set::new(|q: (int, int)| exists|i: int| 0 <= i <= walk_end(valid, l, 0) && l[i] == q)
}

/// The cells seen along the line of sight from `p` toward target `t`.
pub open spec fn seg_points(valid: Set<(int, int)>, p: (int, int), t: (int, int)) -> Set<
    (int, int),
> {
    walk_pts(valid, line_seq(p, t))
}

/// Whether `q` lies on the seen segment toward some target `t`.
pub open spec fn sees(valid: Set<(int, int)>, p: (int, int), t: (int, int), q: (int, int)) -> bool {
    seg_points(valid, p, t).contains(q)
}

/// The square scan box of radius `r` around `p`, clamped to `[0, w] x [0, h]`
/// (one column and row beyond the grid are scanned and discarded later).
pub open spec fn in_bbox(p: (int, int), r: int, w: int, h: int, t: (int, int)) -> bool {
    &&& (if p.0 - r > 0 {
        p.0 - r
    } else {
        0
    }) <= t.0 <= (if p.0 + r < w {
        p.0 + r
    } else {
        w
    })
    &&& (if p.1 - r > 0 {
        p.1 - r
    } else {
        0
    }) <= t.1 <= (if p.1 + r < h {
        p.1 + r
    } else {
        h
    })
}

/// The directionality filter: which offsets from the observer a view shape
/// oriented by `d` lets through. A cone keeps the forward diagonal wedge, a
/// plane the open half-plane strictly ahead, and a circle everything.
pub open spec fn dir_ok(v: View, d: Direction, p: (int, int), q: (int, int)) -> bool {
    let dx = q.0 - p.0;
    let dy = q.1 - p.1;
    match v {
        View::Cone { .. } => match d {
            Direction::North => dx >= dy && dx <= -dy,
            Direction::East => dy <= dx && dy >= -dx,
            Direction::South => dx <= dy && dx >= -dy,
            Direction::West => dy >= dx && dy <= -dx,
            Direction::NorthEast => dx >= 0 && dy <= 0,
            Direction::SouthEast => dx >= 0 && dy >= 0,
            Direction::SouthWest => dx <= 0 && dy >= 0,
            Direction::NorthWest => dx <= 0 && dy <= 0,
        },
        View::Plane { .. } => match d {
            Direction::North => dy < 0,
            Direction::East => dx > 0,
            Direction::South => dy > 0,
            Direction::West => dx < 0,
            Direction::NorthEast => dx > dy,
            Direction::SouthEast => dx > -dy,
            Direction::SouthWest => dx < dy,
            Direction::NorthWest => dx < -dy,
        },
        View::Circle { .. } => true,
        View::Full => true,
    }
}

/// The visible-cell set of an observer at `p` facing `d` under view `v`, over
/// the valid-cell set `valid` of a `w` x `h` pixel grid. `Full` sees the
/// whole valid set; a bounded view sees the observer's own cell plus every
/// in-bounds cell that passes the directionality filter and lies on the
/// seen segment toward some target of the scan box. (Without the own-cell
/// clause a strict half-plane filter would drop the observer itself.)
pub open spec fn visible_spec(
    valid: Set<(int, int)>,
    w: int,
    h: int,
    p: (int, int),
    d: Direction,
    v: View,
) -> Set<(int, int)> {
    if v is Full {
        valid
    } else {
        let r = v.radius_spec() as int;
        Set::new(
            |q: (int, int)|
                0 <= q.0 < w && 0 <= q.1 < h && (q == p || (dir_ok(v, d, p, q) && exists|
                    t: (int, int),
                |
                    in_bbox(p, r, w, h, t) && #[trigger] sees(valid, p, t, q))),
        )
    }
}

/// If the walk is unobstructed before `k` and stops at `k` (a block or the
/// line's end), then `k` is where the whole walk ends.
proof fn lemma_walk_end_from(valid: Set<(int, int)>, l: Seq<(int, int)>, i: int, k: int)
    requires
        0 <= i <= k < l.len(),
        forall|j: int| i <= j < k ==> !blocked_at(valid, l, j),
        blocked_at(valid, l, k) || k == l.len() - 1,
    ensures
        walk_end(valid, l, i) == k,
    decreases k - i,
{
    if i == k {
    } else {
        lemma_walk_end_from(valid, l, i + 1, k);
    }
}

/// Cells of the first `n` entries of `l`.
pub open spec fn pts_upto(l: Seq<(int, int)>, n: int) -> Set<(int, int)> {
    Set::new(|q: (int, int)| exists|i: int| 0 <= i < n && l[i] == q)
}

/// `s` restricted to the `w` x `h` grid.
pub open spec fn clamped(s: Set<(int, int)>, w: int, h: int) -> Set<(int, int)> {
    Set::new(|q: (int, int)| s.contains(q) && 0 <= q.0 < w && 0 <= q.1 < h)
}

/// Whether the signed coordinate pair is a valid cell of the board.
fn valid_signed(board: &CellSet, x: i64, y: i64) -> (r: bool)
    requires
        board.wf(),
    ensures
        r == board.set().contains((x as int, y as int)),
{
    if x >= 0 && y >= 0 && x <= 200000 && y <= 200000 {
        board.contains(x as usize, y as usize)
    } else {
        proof {
            crate::cellset::lemma_cellset_bounds(*board);
        }
        false
    }
}

/// Walk one line of sight, marking every traversed cell (clamped to the
/// grid) up to and including the first blocking cell.
#[verifier::loop_isolation(false)]
fn walk_and_mark(board: &CellSet, mark: &mut CellSet, line: &Vec<(i64, i64)>)
    requires
        board.wf(),
        old(mark).wf(),
        line@.len() >= 1,
        bounded_pts(line@),
    ensures
        final(mark).wf(),
        final(mark).width_spec() == old(mark).width_spec(),
        final(mark).height_spec() == old(mark).height_spec(),
        final(mark).set() == old(mark).set().union(
            clamped(
                walk_pts(board.set(), lv(line@)),
                old(mark).width_spec() as int,
                old(mark).height_spec() as int,
            ),
        ),
{
    let ghost valid = board.set();
    let ghost ll = lv(line@);
    let ghost w = old(mark).width_spec() as int;
    let ghost h = old(mark).height_spec() as int;
    let mut idx: usize = 0;
    let mut stopped: bool = false;
    let ghost mut stop_at: int = 0;
    while idx < line.len() && !stopped
        invariant
            board.wf(),
            mark.wf(),
            mark.width_spec() == old(mark).width_spec(),
            mark.height_spec() == old(mark).height_spec(),
            ll == lv(line@),
            ll.len() == line@.len() >= 1,
            bounded_pts(line@),
            0 <= idx <= line@.len(),
            !stopped ==> forall|j: int| 0 <= j < idx ==> !blocked_at(valid, ll, j),
            !stopped ==> mark.set() == old(mark).set().union(clamped(pts_upto(ll, idx as int), w, h)),
            stopped ==> 0 <= stop_at < ll.len(),
            stopped ==> forall|j: int| 0 <= j < stop_at ==> !blocked_at(valid, ll, j),
            stopped ==> blocked_at(valid, ll, stop_at),
            stopped ==> mark.set() == old(mark).set().union(
                clamped(pts_upto(ll, stop_at + 1), w, h),
            ),
        decreases line@.len() - idx + (if stopped {
            0int
        } else {
            1int
        }),
    {
        let (lx, ly) = line[idx];
        let ghost pre = mark.set();
        if lx >= 0 && ly >= 0 {
            mark.insert(lx as usize, ly as usize);
        }
        proof {
            assert(ll[idx as int] == (lx as int, ly as int));
            assert forall|q: (int, int)|
                mark.set().contains(q) <==> (pre.contains(q) || (q == (lx as int, ly as int) && 0
                    <= q.0 < w && 0 <= q.1 < h)) by {}
            assert forall|q: (int, int)|
                mark.set().contains(q) <==> old(mark).set().union(
                    clamped(pts_upto(ll, idx + 1), w, h),
                ).contains(q) by {
                if mark.set().contains(q) {
                    if pre.contains(q) {
                        if !old(mark).set().contains(q) {
                            let i = choose|i: int| 0 <= i < idx && ll[i] == q;
                            assert(pts_upto(ll, idx + 1).contains(q));
                        }
                    } else {
                        assert(ll[idx as int] == q);
                        assert(pts_upto(ll, idx + 1).contains(q));
                    }
                } else {
                    if old(mark).set().union(clamped(pts_upto(ll, idx + 1), w, h)).contains(q) {
                        if clamped(pts_upto(ll, idx + 1), w, h).contains(q) {
                            let i = choose|i: int| 0 <= i < idx + 1 && ll[i] == q;
                            if i < idx {
                                assert(pts_upto(ll, idx as int).contains(q));
                                assert(clamped(pts_upto(ll, idx as int), w, h).contains(q));
                            } else {
                                assert(q == (lx as int, ly as int));
                            }
                        }
                        assert(false);
                    }
                }
            }
            assert(mark.set() =~= old(mark).set().union(clamped(pts_upto(ll, idx + 1), w, h)));
        }
        if !valid_signed(board, lx, ly) {
            stopped = true;
            proof {
                stop_at = idx as int;
                assert(blocked_at(valid, ll, idx as int));
            }
        } else if idx + 1 < line.len() {
            let (nx, ny) = line[idx + 1];
            let dx = nx - lx;
            let dy = ny - ly;
            if (dx == 1 || dx == -1) && (dy == 1 || dy == -1) && valid_signed(board, nx, ny)
                && !valid_signed(board, lx + dx, ly) && !valid_signed(board, lx, ly + dy) {
                stopped = true;
                proof {
                    stop_at = idx as int;
                    assert(ll[idx + 1] == (nx as int, ny as int));
                    assert(diag_blocked(valid, ll[idx as int], ll[idx + 1]));
                }
            } else {
                proof {
                    assert(!blocked_at(valid, ll, idx as int));
                }
            }
        } else {
            proof {
                assert(idx + 1 == ll.len());
                assert(!blocked_at(valid, ll, idx as int));
            }
        }
        idx += 1;
    }
    proof {
        if stopped {
            lemma_walk_end_from(valid, ll, 0, stop_at);
            assert(walk_end(valid, ll, 0) == stop_at);
            assert forall|q: (int, int)|
                pts_upto(ll, stop_at + 1).contains(q) <==> walk_pts(valid, ll).contains(q) by {}
            assert(clamped(pts_upto(ll, stop_at + 1), w, h) =~= clamped(
                walk_pts(valid, ll),
                w,
                h,
            ));
        } else {
            assert(idx == ll.len());
            lemma_walk_end_from(valid, ll, 0, ll.len() - 1);
            assert(walk_end(valid, ll, 0) == ll.len() - 1);
            assert forall|q: (int, int)|
                pts_upto(ll, idx as int).contains(q) <==> walk_pts(valid, ll).contains(q) by {}
            assert(clamped(pts_upto(ll, idx as int), w, h) =~= clamped(walk_pts(valid, ll), w, h));
        }
    }
}

/// The executable directionality filter.
fn dir_ok_exec(v: &View, d: &Direction, p: (usize, usize), q: (usize, usize)) -> (r: bool)
    requires
        p.0 <= 200000,
        p.1 <= 200000,
        q.0 <= 200000,
        q.1 <= 200000,
    ensures
        r == dir_ok(*v, *d, (p.0 as int, p.1 as int), (q.0 as int, q.1 as int)),
{
    let dx: i64 = q.0 as i64 - p.0 as i64;
    let dy: i64 = q.1 as i64 - p.1 as i64;
    match v {
        View::Cone { .. } => match d {
            Direction::North => dx >= dy && dx <= -dy,
            Direction::East => dy <= dx && dy >= -dx,
            Direction::South => dx <= dy && dx >= -dy,
            Direction::West => dy >= dx && dy <= -dx,
            Direction::NorthEast => dx >= 0 && dy <= 0,
            Direction::SouthEast => dx >= 0 && dy >= 0,
            Direction::SouthWest => dx <= 0 && dy >= 0,
            Direction::NorthWest => dx <= 0 && dy <= 0,
        },
        View::Plane { .. } => match d {
            Direction::North => dy < 0,
            Direction::East => dx > 0,
            Direction::South => dy > 0,
            Direction::West => dx < 0,
            Direction::NorthEast => dx > dy,
            Direction::SouthEast => dx > -dy,
            Direction::SouthWest => dx < dy,
            Direction::NorthWest => dx < -dy,
        },
        View::Circle { .. } => true,
        View::Full => true,
    }
}

/// Compute the visible-cell set of a bounded view: scan the box, walk each
/// line of sight, then apply the directionality filter.
#[verifier::loop_isolation(false)]
#[verifier::rlimit(60)]
pub fn compute_visible(board: &CellSet, pos: (usize, usize), dir: &Direction, view: &View) -> (res:
    CellSet)
    requires
        board.wf(),
        view.wf(),
        !view.is_full(),
        (pos.0 as int) < board.width_spec(),
        (pos.1 as int) < board.height_spec(),
        board.width_spec() <= 1000,
        board.height_spec() <= 1000,
    ensures
        res.wf(),
        res.width_spec() == board.width_spec(),
        res.height_spec() == board.height_spec(),
        res.set() == visible_spec(
            board.set(),
            board.width_spec() as int,
            board.height_spec() as int,
            (pos.0 as int, pos.1 as int),
            *dir,
            *view,
        ),
{
    let w = board.width();
    let h = board.height();
    let r = view.radius();
    let ghost valid = board.set();
    let ghost p = (pos.0 as int, pos.1 as int);
    let ghost ri = r as int;
    let xlo = if pos.0 > r {
        pos.0 - r
    } else {
        0
    };
    let xhi = if pos.0 + r < w {
        pos.0 + r
    } else {
        w
    };
    let ylo = if pos.1 > r {
        pos.1 - r
    } else {
        0
    };
    let yhi = if pos.1 + r < h {
        pos.1 + r
    } else {
        h
    };
    proof {
        assert(forall|t: (int, int)|
            in_bbox(p, ri, w as int, h as int, t) <==> (xlo <= t.0 <= xhi && ylo <= t.1 <= yhi));
        assert(w * h <= 10000000) by (nonlinear_arith)
            requires
                w <= 1000,
                h <= 1000,
        ;
    }
    let mut mark = CellSet::empty(w, h);
    proof {
        assert(mark.set() =~= Set::new(
            |q: (int, int)|
                0 <= q.0 < w && 0 <= q.1 < h && exists|t: (int, int)|
                    (xlo <= t.0 <= xhi && ylo <= t.1 < ylo) && #[trigger] sees(valid, p, t, q),
        ));
    }
    let mut ty = ylo;
    while ty <= yhi
        invariant
            board.wf(),
            mark.wf(),
            mark.width_spec() == w == board.width_spec(),
            mark.height_spec() == h == board.height_spec(),
            valid == board.set(),
            p == (pos.0 as int, pos.1 as int),
            ri == r as int,
            pos.0 < w <= 1000,
            pos.1 < h <= 1000,
            r <= 16,
            xlo <= pos.0,
            ylo <= ty <= yhi + 1,
            xhi <= w,
            yhi <= h,
            forall|t: (int, int)|
                in_bbox(p, ri, w as int, h as int, t) <==> (xlo <= t.0 <= xhi && ylo <= t.1
                    <= yhi),
            mark.set() == Set::new(
                |q: (int, int)|
                    0 <= q.0 < w && 0 <= q.1 < h && exists|t: (int, int)|
                        (xlo <= t.0 <= xhi && ylo <= t.1 < ty) && #[trigger] sees(valid, p, t, q),
            ),
        decreases yhi + 1 - ty,
    {
        proof {
            assert forall|q: (int, int)|
                mark.set().contains(q) <==> (0 <= q.0 < w && 0 <= q.1 < h && exists|u: (int, int)|
                    ((xlo <= u.0 <= xhi && ylo <= u.1 < ty) || (u.1 == ty && xlo <= u.0 < xlo))
                        && #[trigger] sees(valid, p, u, q)) by {
                if mark.set().contains(q) {
                    let u = choose|u: (int, int)|
                        (xlo <= u.0 <= xhi && ylo <= u.1 < ty) && #[trigger] sees(valid, p, u, q);
                    assert(((xlo <= u.0 <= xhi && ylo <= u.1 < ty) || (u.1 == ty && xlo <= u.0
                        < xlo)) && sees(valid, p, u, q));
                } else {
                    if 0 <= q.0 < w && 0 <= q.1 < h && exists|u: (int, int)|
                        ((xlo <= u.0 <= xhi && ylo <= u.1 < ty) || (u.1 == ty && xlo <= u.0 < xlo))
                            && #[trigger] sees(valid, p, u, q) {
                        let u = choose|u: (int, int)|
                            ((xlo <= u.0 <= xhi && ylo <= u.1 < ty) || (u.1 == ty && xlo <= u.0
                                < xlo)) && #[trigger] sees(valid, p, u, q);
                        assert((xlo <= u.0 <= xhi && ylo <= u.1 < ty) && sees(valid, p, u, q));
                        assert(false);
                    }
                }
            }
            assert(mark.set() =~= Set::new(
                |q: (int, int)|
                    0 <= q.0 < w && 0 <= q.1 < h && exists|u: (int, int)|
                        ((xlo <= u.0 <= xhi && ylo <= u.1 < ty) || (u.1 == ty && xlo <= u.0 < xlo))
                            && #[trigger] sees(valid, p, u, q),
            ));
        }
        let mut tx = xlo;
        while tx <= xhi
            invariant
                board.wf(),
                mark.wf(),
                mark.width_spec() == w == board.width_spec(),
                mark.height_spec() == h == board.height_spec(),
                valid == board.set(),
                p == (pos.0 as int, pos.1 as int),
                pos.0 < w <= 1000,
                pos.1 < h <= 1000,
                r <= 16,
                xlo <= tx <= xhi + 1,
                xlo <= pos.0,
                ylo <= ty <= yhi <= h,
                xhi <= w,
                mark.set() == Set::new(
                    |q: (int, int)|
                        0 <= q.0 < w && 0 <= q.1 < h && exists|t: (int, int)|
                            ((xlo <= t.0 <= xhi && ylo <= t.1 < ty) || (t.1 == ty && xlo <= t.0
                                < tx)) && #[trigger] sees(valid, p, t, q),
                ),
            decreases xhi + 1 - tx,
        {
            let line = line_points((pos.0 as i64, pos.1 as i64), (tx as i64, ty as i64));
            let ghost t = (tx as int, ty as int);
            let ghost pre = mark.set();
            walk_and_mark(board, &mut mark, &line);
            proof {
                assert(lv(line@) == line_seq(p, t));
                assert(mark.set() == pre.union(clamped(seg_points(valid, p, t), w as int, h as int)));
                assert forall|q: (int, int)|
                    mark.set().contains(q) <==> (0 <= q.0 < w && 0 <= q.1 < h && exists|
                        u: (int, int),
                    |
                        ((xlo <= u.0 <= xhi && ylo <= u.1 < ty) || (u.1 == ty && xlo <= u.0 < tx
                            + 1)) && #[trigger] sees(valid, p, u, q)) by {
                    if mark.set().contains(q) {
                        if pre.contains(q) {
                            let u = choose|u: (int, int)|
                                ((xlo <= u.0 <= xhi && ylo <= u.1 < ty) || (u.1 == ty && xlo <= u.0
                                    < tx)) && #[trigger] sees(valid, p, u, q);
                            assert(((xlo <= u.0 <= xhi && ylo <= u.1 < ty) || (u.1 == ty && xlo
                                <= u.0 < tx + 1)) && sees(valid, p, u, q));
                        } else {
                            assert(sees(valid, p, t, q));
                            assert(((xlo <= t.0 <= xhi && ylo <= t.1 < ty) || (t.1 == ty && xlo
                                <= t.0 < tx + 1)) && sees(valid, p, t, q));
                        }
                    } else {
                        if 0 <= q.0 < w && 0 <= q.1 < h {
                            if exists|u: (int, int)|
                                ((xlo <= u.0 <= xhi && ylo <= u.1 < ty) || (u.1 == ty && xlo <= u.0
                                    < tx + 1)) && #[trigger] sees(valid, p, u, q) {
                                let u = choose|u: (int, int)|
                                    ((xlo <= u.0 <= xhi && ylo <= u.1 < ty) || (u.1 == ty && xlo
                                        <= u.0 < tx + 1)) && #[trigger] sees(valid, p, u, q);
                                if u == t {
                                    assert(clamped(
                                        seg_points(valid, p, t),
                                        w as int,
                                        h as int,
                                    ).contains(q));
                                    assert(false);
                                } else {
                                    assert(pre.contains(q));
                                    assert(false);
                                }
                            }
                        }
                    }
                }
                assert(mark.set() =~= Set::new(
                    |q: (int, int)|
                        0 <= q.0 < w && 0 <= q.1 < h && exists|u: (int, int)|
                            ((xlo <= u.0 <= xhi && ylo <= u.1 < ty) || (u.1 == ty && xlo <= u.0 < tx
                                + 1)) && #[trigger] sees(valid, p, u, q),
                ));
            }
            tx += 1;
        }
        proof {
            assert forall|q: (int, int)|
                mark.set().contains(q) <==> (0 <= q.0 < w && 0 <= q.1 < h && exists|u: (int, int)|
                    (xlo <= u.0 <= xhi && ylo <= u.1 < ty + 1) && #[trigger] sees(
                        valid,
                        p,
                        u,
                        q,
                    )) by {
                if mark.set().contains(q) {
                    let u = choose|u: (int, int)|
                        ((xlo <= u.0 <= xhi && ylo <= u.1 < ty) || (u.1 == ty && xlo <= u.0 < tx))
                            && #[trigger] sees(valid, p, u, q);
                    assert((xlo <= u.0 <= xhi && ylo <= u.1 < ty + 1) && sees(valid, p, u, q));
                } else {
                    if 0 <= q.0 < w && 0 <= q.1 < h {
                        if exists|u: (int, int)|
                            (xlo <= u.0 <= xhi && ylo <= u.1 < ty + 1) && #[trigger] sees(
                                valid,
                                p,
                                u,
                                q,
                            ) {
                            let u = choose|u: (int, int)|
                                (xlo <= u.0 <= xhi && ylo <= u.1 < ty + 1) && #[trigger] sees(
                                    valid,
                                    p,
                                    u,
                                    q,
                                );
                            assert(((xlo <= u.0 <= xhi && ylo <= u.1 < ty) || (u.1 == ty && xlo
                                <= u.0 < tx)) && sees(valid, p, u, q));
                            assert(false);
                        }
                    }
                }
            }
            assert(mark.set() =~= Set::new(
                |q: (int, int)|
                    0 <= q.0 < w && 0 <= q.1 < h && exists|u: (int, int)|
                        (xlo <= u.0 <= xhi && ylo <= u.1 < ty + 1) && #[trigger] sees(
                            valid,
                            p,
                            u,
                            q,
                        ),
            ));
        }
        ty += 1;
    }
    let mut res = CellSet::empty(w, h);
    proof {
        crate::cellset::lemma_cellset_bounds(mark);
    }
    let mut fy: usize = 0;
    while fy < h
        invariant
            mark.wf(),
            res.wf(),
            res.width_spec() == w,
            res.height_spec() == h,
            mark.width_spec() == w,
            mark.height_spec() == h,
            w <= 1000,
            h <= 1000,
            pos.0 < w,
            pos.1 < h,
            fy <= h,
            p == (pos.0 as int, pos.1 as int),
            forall|q: (int, int)| #[trigger]
                mark.set().contains(q) ==> 0 <= q.0 < w && 0 <= q.1 < h,
            forall|q: (int, int)|
                res.set().contains(q) <==> (q.1 < fy && mark.set().contains(q) && dir_ok(
                    *view,
                    *dir,
                    p,
                    q,
                )),
        decreases h - fy,
    {
        let mut fx: usize = 0;
        while fx < w
            invariant
                mark.wf(),
                res.wf(),
                res.width_spec() == w,
                res.height_spec() == h,
                w <= 1000,
                h <= 1000,
                pos.0 < w,
                pos.1 < h,
                fy < h,
                fx <= w,
                p == (pos.0 as int, pos.1 as int),
                forall|q: (int, int)| #[trigger]
                    mark.set().contains(q) ==> 0 <= q.0 < w && 0 <= q.1 < h,
                forall|q: (int, int)|
                    res.set().contains(q) <==> ((q.1 < fy || (q.1 == fy && q.0 < fx))
                        && mark.set().contains(q) && dir_ok(*view, *dir, p, q)),
            decreases w - fx,
        {
            let ghost pre = res.set();
            if mark.contains(fx, fy) && dir_ok_exec(view, dir, pos, (fx, fy)) {
                res.insert(fx, fy);
            }
            proof {
                assert forall|q: (int, int)|
                    res.set().contains(q) <==> ((q.1 < fy || (q.1 == fy && q.0 < fx + 1))
                        && mark.set().contains(q) && dir_ok(*view, *dir, p, q)) by {
                    if q != (fx as int, fy as int) {
                        assert(res.set().contains(q) <==> pre.contains(q));
                    }
                }
            }
            fx += 1;
        }
        proof {
            assert forall|q: (int, int)|
                res.set().contains(q) <==> (q.1 < fy + 1 && mark.set().contains(q) && dir_ok(
                    *view,
                    *dir,
                    p,
                    q,
                )) by {
                if q.1 == fy && mark.set().contains(q) {
                    assert(q.0 < w);
                }
            }
        }
        fy += 1;
    }
    let ghost filtered = res.set();
    res.insert(pos.0, pos.1);
    proof {
        let vspec = visible_spec(valid, w as int, h as int, p, *dir, *view);
        assert(res.set() == filtered.insert(p));
        assert forall|q: (int, int)| res.set().contains(q) <==> vspec.contains(q) by {
            if q == p {
                assert(res.set().contains(q));
                assert(vspec.contains(q));
            } else {
                if res.set().contains(q) {
                    assert(filtered.contains(q));
                    assert(mark.set().contains(q));
                    let u = choose|u: (int, int)|
                        (xlo <= u.0 <= xhi && ylo <= u.1 < yhi + 1) && #[trigger] sees(
                            valid,
                            p,
                            u,
                            q,
                        );
                    assert(in_bbox(p, ri, w as int, h as int, u) && sees(valid, p, u, q));
                    assert(vspec.contains(q));
                }
                if vspec.contains(q) {
                    assert(0 <= q.0 < w && 0 <= q.1 < h && dir_ok(*view, *dir, p, q));
                    let u = choose|u: (int, int)|
                        in_bbox(p, ri, w as int, h as int, u) && #[trigger] sees(valid, p, u, q);
                    assert(xlo <= u.0 <= xhi && ylo <= u.1 < yhi + 1);
                    assert(mark.set().contains(q));
                    assert(filtered.contains(q));
                    assert(res.set().contains(q));
                }
            }
        }
        assert(res.set() =~= vspec);
    }
    res
}


/// An observer standing inside the grid always sees its own cell, under
/// every bounded view and every facing (the full view is settled by
/// `lemma_full_view_sees_all`).
pub proof fn lemma_visible_includes_observer(
    valid: Set<(int, int)>,
    w: int,
    h: int,
    p: (int, int),
    d: Direction,
    v: View,
)
    requires
        !(v is Full),
        0 <= p.0 < w,
        0 <= p.1 < h,
    ensures
        visible_spec(valid, w, h, p, d, v).contains(p),
{
}

/// Under the full view the visible set is exactly the valid-cell set,
/// whatever the observer's position and facing.
pub proof fn lemma_full_view_sees_all(
    valid: Set<(int, int)>,
    w: int,
    h: int,
    p: (int, int),
    d: Direction,
)
    ensures
        visible_spec(valid, w, h, p, d, View::Full) == valid,
{
}

} // verus!
