//! A set of pixel cells stored as a boolean grid over fixed bounds.
use vstd::prelude::*;

verus! {

/// A set of grid cells within `width` x `height` pixel bounds, stored as one
/// flag per cell. Its mathematical view is the set of contained coordinates.
pub struct CellSet {
    width: usize,
    height: usize,
    bits: Vec<bool>,
}

/// Members of a well-formed cell set lie within its (small) bounds.
pub proof fn lemma_cellset_bounds(c: CellSet)
    requires
        c.wf(),
    ensures
        forall|q: (int, int)| #[trigger]
            c.set().contains(q) ==> 0 <= q.0 < c.width_spec() && 0 <= q.1 < c.height_spec(),
        c.width_spec() <= 100000,
        c.height_spec() <= 100000,
{
}

impl CellSet {
    /// Internal consistency: one flag per cell of the bounds.
    pub closed spec fn wf(self) -> bool {
        &&& self.bits.len() == self.width * self.height
        &&& self.width <= 100000
        &&& self.height <= 100000
    }

    /// The set of coordinates this holds; always within bounds.
    pub closed spec fn set(self) -> Set<(int, int)> {
        Set::new(
            |q: (int, int)|
                0 <= q.0 < self.width && 0 <= q.1 < self.height && self.bits[q.1 * self.width
                    + q.0],
        )
    }

    pub closed spec fn width_spec(self) -> usize {
        self.width
    }

    pub closed spec fn height_spec(self) -> usize {
        self.height
    }

    pub fn width(&self) -> (r: usize)
        ensures
            r == self.width_spec(),
    {
        self.width
    }

    pub fn height(&self) -> (r: usize)
        ensures
            r == self.height_spec(),
    {
        self.height
    }

    /// The empty set over the given bounds.
    pub fn empty(width: usize, height: usize) -> (r: CellSet)
        requires
            width <= 100000,
            height <= 100000,
            width * height <= 10000000,
        ensures
            r.wf(),
            r.width_spec() == width,
            r.height_spec() == height,
            r.set() == Set::<(int, int)>::empty(),
    {
        let n = width * height;
        let bits: Vec<bool> = vec![false; n];
        let r = CellSet { width, height, bits };
        proof {
            assert forall|q: (int, int)| !r.set().contains(q) by {
                if 0 <= q.0 < width && 0 <= q.1 < height {
                    assert(0 <= q.1 * width + q.0 < width * height) by (nonlinear_arith)
                        requires
                            0 <= q.0 < width,
                            0 <= q.1 < height,
                    ;
                }
            }
            assert(r.set() =~= Set::<(int, int)>::empty());
        }
        r
    }

    proof fn lemma_index(self, q: (int, int))
        requires
            self.wf(),
            0 <= q.0 < self.width,
            0 <= q.1 < self.height,
        ensures
            0 <= q.1 * self.width + q.0 < self.bits.len(),
    {
        assert(0 <= q.1 * self.width + q.0 < self.width * self.height) by (nonlinear_arith)
            requires
                0 <= q.0 < self.width,
                0 <= q.1 < self.height,
        ;
    }

    /// Distinct in-bounds coordinates use distinct flags.
    proof fn lemma_index_injective(self, a: (int, int), b: (int, int))
        requires
            self.wf(),
            0 <= a.0 < self.width,
            0 <= a.1 < self.height,
            0 <= b.0 < self.width,
            0 <= b.1 < self.height,
            a != b,
        ensures
            a.1 * self.width + a.0 != b.1 * self.width + b.0,
    {
        assert(a.1 * self.width + a.0 != b.1 * self.width + b.0) by (nonlinear_arith)
            requires
                0 <= a.0 < self.width,
                0 <= b.0 < self.width,
                (a.0, a.1) != (b.0, b.1),
        ;
    }

    /// Whether `(x, y)` is in the set; out-of-bounds coordinates are not.
    pub fn contains(&self, x: usize, y: usize) -> (r: bool)
        requires
            self.wf(),
        ensures
            r == self.set().contains((x as int, y as int)),
    {
        if x < self.width && y < self.height {
            proof {
                self.lemma_index((x as int, y as int));
            }
            self.bits[y * self.width + x]
        } else {
            false
        }
    }

    /// Add `(x, y)` if it lies within bounds; out-of-bounds insertions are
    /// discarded, so the view stays within bounds.
    pub fn insert(&mut self, x: usize, y: usize)
        requires
            old(self).wf(),
        ensures
            final(self).wf(),
            final(self).width_spec() == old(self).width_spec(),
            final(self).height_spec() == old(self).height_spec(),
            x < old(self).width_spec() && y < old(self).height_spec() ==> final(self).set() == old(
                self,
            ).set().insert((x as int, y as int)),
            !(x < old(self).width_spec() && y < old(self).height_spec()) ==> final(self).set()
                == old(self).set(),
    {
        if x < self.width && y < self.height {
            proof {
                self.lemma_index((x as int, y as int));
            }
            let i = y * self.width + x;
            self.bits[i] = true;
            proof {
                assert forall|q: (int, int)|
                    self.set().contains(q) <==> old(self).set().insert(
                        (x as int, y as int),
                    ).contains(q) by {
                    if 0 <= q.0 < self.width && 0 <= q.1 < self.height {
                        old(self).lemma_index(q);
                        if q != (x as int, y as int) {
                            old(self).lemma_index_injective(q, (x as int, y as int));
                        }
                    }
                }
                assert(self.set() =~= old(self).set().insert((x as int, y as int)));
            }
        }
    }

    /// Remove `(x, y)` from the set.
    pub fn remove(&mut self, x: usize, y: usize)
        requires
            old(self).wf(),
        ensures
            final(self).wf(),
            final(self).width_spec() == old(self).width_spec(),
            final(self).height_spec() == old(self).height_spec(),
            final(self).set() == old(self).set().remove((x as int, y as int)),
    {
        if x < self.width && y < self.height {
            proof {
                self.lemma_index((x as int, y as int));
            }
            let i = y * self.width + x;
            self.bits[i] = false;
            proof {
                assert forall|q: (int, int)|
                    self.set().contains(q) <==> old(self).set().remove(
                        (x as int, y as int),
                    ).contains(q) by {
                    if 0 <= q.0 < self.width && 0 <= q.1 < self.height {
                        old(self).lemma_index(q);
                        if q != (x as int, y as int) {
                            old(self).lemma_index_injective(q, (x as int, y as int));
                        }
                    }
                }
                assert(self.set() =~= old(self).set().remove((x as int, y as int)));
            }
        } else {
            proof {
                assert(self.set() =~= old(self).set().remove((x as int, y as int)));
            }
        }
    }

    /// An independent copy with the same contents.
    pub fn duplicate(&self) -> (r: CellSet)
        requires
            self.wf(),
        ensures
            r.wf(),
            r.width_spec() == self.width_spec(),
            r.height_spec() == self.height_spec(),
            r.set() == self.set(),
    {
        let mut bits: Vec<bool> = Vec::new();
        let mut i: usize = 0;
        while i < self.bits.len()
            invariant
                i <= self.bits.len(),
                bits@.len() == i,
                forall|j: int| 0 <= j < i ==> bits@[j] == self.bits@[j],
            decreases self.bits.len() - i,
        {
            bits.push(self.bits[i]);
            i += 1;
        }
        let r = CellSet { width: self.width, height: self.height, bits };
        proof {
            assert forall|q: (int, int)| r.set().contains(q) <==> self.set().contains(q) by {
                if 0 <= q.0 < self.width && 0 <= q.1 < self.height {
                    self.lemma_index(q);
                }
            }
            assert(r.set() =~= self.set());
        }
        r
    }

    /// Whether two sets hold exactly the same cells (bounds may differ).
    pub fn same_set(&self, other: &CellSet) -> (r: bool)
        requires
            self.wf(),
            other.wf(),
        ensures
            r == (self.set() == other.set()),
    {
        let mut y: usize = 0;
        while y < self.height || y < other.height
            invariant
                self.wf(),
                other.wf(),
                forall|q: (int, int)|
                    q.1 < y ==> (self.set().contains(q) <==> other.set().contains(q)),
            decreases (if self.height > other.height {
                self.height
            } else {
                other.height
            }) - y,
        {
            let wmax = if self.width > other.width {
                self.width
            } else {
                other.width
            };
            let mut x: usize = 0;
            while x < wmax
                invariant
                    self.wf(),
                    other.wf(),
                    wmax >= self.width,
                    wmax >= other.width,
                    forall|q: (int, int)|
                        q.1 < y ==> (self.set().contains(q) <==> other.set().contains(q)),
                    forall|q: (int, int)|
                        q.1 == y && q.0 < x ==> (self.set().contains(q) <==> other.set().contains(
                            q,
                        )),
                decreases wmax - x,
            {
                if self.contains(x, y) != other.contains(x, y) {
                    proof {
                        let q = (x as int, y as int);
                        assert(self.set().contains(q) != other.set().contains(q));
                    }
                    return false;
                }
                x += 1;
            }
            proof {
                assert forall|q: (int, int)| #![auto]
                    q.1 == y ==> (self.set().contains(q) <==> other.set().contains(q)) by {
                    if q.1 == y {
                        if 0 <= q.0 < wmax {
                        } else {
                            assert(!self.set().contains(q));
                            assert(!other.set().contains(q));
                        }
                    }
                }
            }
            y += 1;
        }
        proof {
            assert forall|q: (int, int)|
                self.set().contains(q) <==> other.set().contains(q) by {
                if q.1 >= y {
                    assert(!self.set().contains(q));
                    assert(!other.set().contains(q));
                }
            }
            assert(self.set() =~= other.set());
        }
        true
    }

    /// All contained cells, in row-major order, without duplicates.
    pub fn to_positions(&self) -> (r: Vec<(usize, usize)>)
        requires
            self.wf(),
        ensures
            forall|i: int|
                0 <= i < r@.len() ==> self.set().contains(
                    (#[trigger] r@[i].0 as int, r@[i].1 as int),
                ),
            forall|q: (int, int)| #[trigger]
                self.set().contains(q) ==> exists|i: int|
                    0 <= i < r@.len() && r@[i].0 == q.0 && r@[i].1 == q.1,
    {
        let mut r: Vec<(usize, usize)> = Vec::new();
        let mut y: usize = 0;
        while y < self.height
            invariant
                self.wf(),
                forall|i: int|
                    0 <= i < r@.len() ==> self.set().contains(
                        (#[trigger] r@[i].0 as int, r@[i].1 as int),
                    ),
                forall|q: (int, int)| #[trigger]
                    self.set().contains(q) && q.1 < y ==> exists|i: int|
                        0 <= i < r@.len() && r@[i].0 == q.0 && r@[i].1 == q.1,
            decreases self.height - y,
        {
            let mut x: usize = 0;
            while x < self.width
                invariant
                    self.wf(),
                    y < self.height,
                    forall|i: int|
                        0 <= i < r@.len() ==> self.set().contains(
                            (#[trigger] r@[i].0 as int, r@[i].1 as int),
                        ),
                    forall|q: (int, int)| #[trigger]
                        self.set().contains(q) && (q.1 < y || (q.1 == y && q.0 < x)) ==> exists|
                            i: int,
                        | 0 <= i < r@.len() && r@[i].0 == q.0 && r@[i].1 == q.1,
                decreases self.width - x,
            {
                let ghost r_pre = r@;
                if self.contains(x, y) {
                    r.push((x, y));
                    proof {
                        let n = r@.len() - 1;
                        assert(r@[n].0 == x && r@[n].1 == y);
                    }
                }
                proof {
                    assert forall|q: (int, int)| #[trigger]
                        self.set().contains(q) && (q.1 < y || (q.1 == y && q.0 < x
                            + 1)) implies exists|i: int|
                        0 <= i < r@.len() && r@[i].0 == q.0 && r@[i].1 == q.1 by {
                        if q.1 < y || (q.1 == y && q.0 < x) {
                            let i = choose|i: int|
                                0 <= i < r_pre.len() && r_pre[i].0 == q.0 && r_pre[i].1 == q.1;
                            assert(r@[i].0 == q.0 && r@[i].1 == q.1);
                        } else {
                            assert(q == (x as int, y as int));
                            let n = r@.len() - 1;
                            assert(r@[n].0 == q.0 && r@[n].1 == q.1);
                        }
                    }
                }
                x += 1;
            }
            y += 1;
        }
        proof {
            assert forall|q: (int, int)| #[trigger]
                self.set().contains(q) implies exists|i: int|
                0 <= i < r@.len() && r@[i].0 == q.0 && r@[i].1 == q.1 by {
                assert(q.1 < y);
            }
        }
        r
    }
}

} // verus!
