//! Discretized lines of sight: straight segments and Bresenham rasterization.
use vstd::prelude::*;

verus! {

/// Coordinate magnitude bound under which all line arithmetic stays far from
/// overflow.
pub const LINE_COORD_BOUND: i64 = 100000;

pub open spec fn iabs(i: int) -> int {
    if i < 0 {
        -i
    } else {
        i
    }
}

/// View of an executable point list as a mathematical point sequence.
pub open spec fn lv(s: Seq<(i64, i64)>) -> Seq<(int, int)> {
    Seq::new(s.len(), |i: int| (s[i].0 as int, s[i].1 as int))
}

/// All points of the list lie comfortably within the line arithmetic range.
pub open spec fn bounded_pts(s: Seq<(i64, i64)>) -> bool {
    forall|i: int|
        0 <= i < s.len() ==> -400000 <= (#[trigger] s[i]).0 <= 400000 && -400000 <= s[i].1
            <= 400000
}

pub proof fn lemma_lv_push(s: Seq<(i64, i64)>, p: (i64, i64))
    ensures
        lv(s.push(p)) == lv(s).push((p.0 as int, p.1 as int)),
{
    assert(lv(s.push(p)) =~= lv(s).push((p.0 as int, p.1 as int)));
}

/// One step of the classic integer line rasterizer: emit the current point,
/// accumulate the slope error, and step y when it crosses half a cell.
pub open spec fn bres_rec(
    x: int,
    x1: int,
    y: int,
    error: int,
    delta_x: int,
    delta_y: int,
    ystep: int,
    steep: bool,
) -> Seq<(int, int)>
    decreases
            if x <= x1 {
                x1 - x + 1
            } else {
                0
            },
{
    if x > x1 {
        Seq::empty()
    } else {
        let p = if steep {
            (y, x)
        } else {
            (x, y)
        };
        let e2 = error + delta_y;
        if 2 * e2 >= delta_x {
            seq![p] + bres_rec(x + 1, x1, y + ystep, e2 - delta_x, delta_x, delta_y, ystep, steep)
        } else {
            seq![p] + bres_rec(x + 1, x1, y, e2, delta_x, delta_y, ystep, steep)
        }
    }
}

/// The rasterized line between two points: normalize to a shallow,
/// left-to-right segment, then walk it. The result visits every column
/// between the endpoints exactly once (in the normalized frame).
pub open spec fn bres_spec(from: (int, int), to: (int, int)) -> Seq<(int, int)> {
    let steep = iabs(to.1 - from.1) > iabs(to.0 - from.0);
    let a = if steep {
        (from.1, from.0)
    } else {
        from
    };
    let b = if steep {
        (to.1, to.0)
    } else {
        to
    };
    let s = if a.0 > b.0 {
        b
    } else {
        a
    };
    let t = if a.0 > b.0 {
        a
    } else {
        b
    };
    bres_rec(
        s.0,
        t.0,
        s.1,
        0,
        t.0 - s.0,
        iabs(t.1 - s.1),
        if s.1 < t.1 {
            1
        } else {
            -1
        },
        steep,
    )
}

/// Points of the rasterized line from `from` to `to`, in the normalized
/// order (not necessarily starting at `from`).
pub fn bresenham_line(from: (i64, i64), to: (i64, i64)) -> (r: Vec<(i64, i64)>)
    requires
        -LINE_COORD_BOUND <= from.0 <= LINE_COORD_BOUND,
        -LINE_COORD_BOUND <= from.1 <= LINE_COORD_BOUND,
        -LINE_COORD_BOUND <= to.0 <= LINE_COORD_BOUND,
        -LINE_COORD_BOUND <= to.1 <= LINE_COORD_BOUND,
    ensures
        lv(r@) == bres_spec((from.0 as int, from.1 as int), (to.0 as int, to.1 as int)),
        r@.len() >= 1,
        bounded_pts(r@),
{
    let (fx, fy) = from;
    let (tx, ty) = to;
    let ady = if ty >= fy {
        ty - fy
    } else {
        fy - ty
    };
    let adx = if tx >= fx {
        tx - fx
    } else {
        fx - tx
    };
    let steep = ady > adx;
    let (ax, ay) = if steep {
        (fy, fx)
    } else {
        (fx, fy)
    };
    let (bx, by) = if steep {
        (ty, tx)
    } else {
        (tx, ty)
    };
    let (x0, y0, x1, y1) = if ax > bx {
        (bx, by, ax, ay)
    } else {
        (ax, ay, bx, by)
    };
    let delta_x = x1 - x0;
    let delta_y = if y1 >= y0 {
        y1 - y0
    } else {
        y0 - y1
    };
    let ystep: i64 = if y0 < y1 {
        1
    } else {
        -1
    };
    let ghost full = bres_spec((from.0 as int, from.1 as int), (to.0 as int, to.1 as int));
    proof {
        assert(full == bres_rec(
            x0 as int,
            x1 as int,
            y0 as int,
            0,
            delta_x as int,
            delta_y as int,
            ystep as int,
            steep,
        ));
    }
    let mut result: Vec<(i64, i64)> = Vec::new();
    let mut error: i64 = 0;
    let mut y = y0;
    let mut x = x0;
    while x <= x1
        invariant
            x0 <= x <= x1 + 1,
            delta_x == x1 - x0,
            0 <= delta_y <= delta_x,
            -LINE_COORD_BOUND <= x0 <= LINE_COORD_BOUND,
            -LINE_COORD_BOUND <= x1 <= LINE_COORD_BOUND,
            -LINE_COORD_BOUND <= y0 <= LINE_COORD_BOUND,
            ystep == 1 || ystep == -1,
            -LINE_COORD_BOUND - (x - x0) <= y <= LINE_COORD_BOUND + (x - x0),
            -delta_x <= 2 * error <= delta_x,
            bounded_pts(result@),
            lv(result@) + bres_rec(
                x as int,
                x1 as int,
                y as int,
                error as int,
                delta_x as int,
                delta_y as int,
                ystep as int,
                steep,
            ) == full,
            result@.len() == x - x0,
        decreases x1 + 1 - x,
    {
        let p = if steep {
            (y, x)
        } else {
            (x, y)
        };
        proof {
            let rest = bres_rec(
                x as int,
                x1 as int,
                y as int,
                error as int,
                delta_x as int,
                delta_y as int,
                ystep as int,
                steep,
            );
            let e2 = error as int + delta_y as int;
            let tail = if 2 * e2 >= delta_x as int {
                bres_rec(
                    x as int + 1,
                    x1 as int,
                    y as int + ystep as int,
                    e2 - delta_x as int,
                    delta_x as int,
                    delta_y as int,
                    ystep as int,
                    steep,
                )
            } else {
                bres_rec(
                    x as int + 1,
                    x1 as int,
                    y as int,
                    e2,
                    delta_x as int,
                    delta_y as int,
                    ystep as int,
                    steep,
                )
            };
            assert(rest == seq![(p.0 as int, p.1 as int)] + tail);
            lemma_lv_push(result@, p);
            assert(lv(result@.push(p)) + tail =~= lv(result@) + rest);
        }
        result.push(p);
        error = error + delta_y;
        if 2 * error >= delta_x {
            y = y + ystep;
            error = error - delta_x;
        }
        x = x + 1;
    }
    proof {
        assert(lv(result@) + Seq::<(int, int)>::empty() =~= lv(result@));
    }
    result
}

/// Reversed copy of a point list.
pub fn reversed(v: &Vec<(i64, i64)>) -> (r: Vec<(i64, i64)>)
    ensures
        r@.len() == v@.len(),
        forall|i: int| 0 <= i < r@.len() ==> (#[trigger] r@[i]) == v@[v@.len() - 1 - i],
        lv(r@) == lv(v@).reverse(),
        bounded_pts(v@) ==> bounded_pts(r@),
{
    let mut r: Vec<(i64, i64)> = Vec::new();
    let mut i: usize = v.len();
    while i > 0
        invariant
            i <= v@.len(),
            r@.len() == v@.len() - i,
            forall|j: int| 0 <= j < r@.len() ==> r@[j] == v@[v@.len() - 1 - j],
        decreases i,
    {
        i -= 1;
        r.push(v[i]);
    }
    proof {
        assert(lv(r@) =~= lv(v@).reverse());
    }
    r
}

/// The ordered line of sight from `p` to `t`: exactly `p` for a degenerate
/// segment, the straight run of cells for axis-aligned segments, and the
/// rasterized line (oriented to start at the observer when it does) for the
/// rest.
pub open spec fn line_seq(p: (int, int), t: (int, int)) -> Seq<(int, int)> {
    if p == t {
        seq![p]
    } else if p.0 == t.0 {
        let n = iabs(t.1 - p.1);
        let s = if p.1 < t.1 {
            1int
        } else {
            -1int
        };
        Seq::new((n + 1) as nat, |i: int| (p.0, p.1 + s * i))
    } else if p.1 == t.1 {
        let n = iabs(t.0 - p.0);
        let s = if p.0 < t.0 {
            1int
        } else {
            -1int
        };
        Seq::new((n + 1) as nat, |i: int| (p.0 + s * i, p.1))
    } else {
        let l = bres_spec(p, t);
        if l.len() > 0 && l[0] == p {
            l
        } else {
            l.reverse()
        }
    }
}

/// Build the ordered line of sight from `p` to `t` as executable points.
pub fn line_points(p: (i64, i64), t: (i64, i64)) -> (r: Vec<(i64, i64)>)
    requires
        0 <= p.0 <= LINE_COORD_BOUND,
        0 <= p.1 <= LINE_COORD_BOUND,
        0 <= t.0 <= LINE_COORD_BOUND,
        0 <= t.1 <= LINE_COORD_BOUND,
    ensures
        lv(r@) == line_seq((p.0 as int, p.1 as int), (t.0 as int, t.1 as int)),
        r@.len() >= 1,
        bounded_pts(r@),
{
    let ghost pi = (p.0 as int, p.1 as int);
    let ghost ti = (t.0 as int, t.1 as int);
    if p.0 == t.0 && p.1 == t.1 {
        let mut r: Vec<(i64, i64)> = Vec::new();
        r.push(p);
        proof {
            assert(lv(r@) =~= line_seq(pi, ti));
        }
        r
    } else if p.0 == t.0 {
        let n = if t.1 >= p.1 {
            t.1 - p.1
        } else {
            p.1 - t.1
        };
        let down = p.1 < t.1;
        let mut r: Vec<(i64, i64)> = Vec::new();
        let mut i: i64 = 0;
        while i <= n
            invariant
                0 <= i <= n + 1,
                n <= 2 * LINE_COORD_BOUND,
                -LINE_COORD_BOUND <= p.1 - n,
                p.1 + n <= 2 * LINE_COORD_BOUND,
                r@.len() == i,
                forall|j: int|
                    0 <= j < i ==> r@[j] == (
                        p.0,
                        if down {
                            (p.1 + j) as i64
                        } else {
                            (p.1 - j) as i64
                        },
                    ),
            decreases n + 1 - i,
        {
            let yy = if down {
                p.1 + i
            } else {
                p.1 - i
            };
            r.push((p.0, yy));
            i += 1;
        }
        proof {
            assert(lv(r@) =~= line_seq(pi, ti));
        }
        r
    } else if p.1 == t.1 {
        let n = if t.0 >= p.0 {
            t.0 - p.0
        } else {
            p.0 - t.0
        };
        let right = p.0 < t.0;
        let mut r: Vec<(i64, i64)> = Vec::new();
        let mut i: i64 = 0;
        while i <= n
            invariant
                0 <= i <= n + 1,
                n <= 2 * LINE_COORD_BOUND,
                -LINE_COORD_BOUND <= p.0 - n,
                p.0 + n <= 2 * LINE_COORD_BOUND,
                r@.len() == i,
                forall|j: int|
                    0 <= j < i ==> r@[j] == (
                        if right {
                            (p.0 + j) as i64
                        } else {
                            (p.0 - j) as i64
                        },
                        p.1,
                    ),
            decreases n + 1 - i,
        {
            let xx = if right {
                p.0 + i
            } else {
                p.0 - i
            };
            r.push((xx, p.1));
            i += 1;
        }
        proof {
            assert(lv(r@) =~= line_seq(pi, ti));
        }
        r
    } else {
        let l = bresenham_line(p, t);
        let first = l[0];
        if first.0 == p.0 && first.1 == p.1 {
            proof {
                assert(lv(l@)[0] == pi);
                assert(lv(l@) == line_seq(pi, ti));
            }
            l
        } else {
            let r = reversed(&l);
            proof {
                assert(lv(l@)[0] != pi);
                assert(lv(r@) == line_seq(pi, ti));
            }
            r
        }
    }
}

} // verus!
