//! The spatial image engine: a dense 2-D histogram over one shared array
//! of strictly increasing bin edges, and the stride-3 downsampling rule
//! that keeps only the middle bin of each interior triplet — the true
//! per-sensor counts, with the gap bins deliberately discarded.

use vstd::prelude::*;

verus! {

/// Strictly ascending edge array.
pub open spec fn strictly_increasing(edges: Seq<i64>) -> bool {
    forall|i: int, j: int| 0 <= i < j < edges.len() ==> #[trigger] edges[i] < #[trigger] edges[j]
}

/// Whether `x` falls in the half-open bin `i`: `edges[i] <= x < edges[i+1]`.
pub open spec fn in_bin(edges: Seq<i64>, i: int, x: int) -> bool {
    0 <= i < edges.len() - 1 && edges[i] <= x < edges[i + 1]
}

/// A coordinate falls in at most one bin of an ascending edge array.
pub proof fn lemma_bin_unique(edges: Seq<i64>, i: int, j: int, x: int)
    requires
        strictly_increasing(edges),
        in_bin(edges, i, x),
        in_bin(edges, j, x),
    ensures
        i == j,
{
    if i < j {
        assert(edges[i + 1] <= edges[j]);
    }
    if j < i {
        assert(edges[j + 1] <= edges[i]);
    }
}

/// An ascending edge array covers its range without holes: every
/// coordinate inside it falls in some bin. With `lemma_bin_unique`, the
/// cell a fill selects is fully determined.
pub proof fn lemma_in_range_has_bin(edges: Seq<i64>, x: int)
    requires
        edges.len() >= 2,
        strictly_increasing(edges),
        edges[0] <= x < edges[edges.len() - 1],
    ensures
        exists|i: int| in_bin(edges, i, x),
    decreases edges.len(),
{
    let last = edges.len() - 1;
    if edges[last - 1] <= x {
        assert(in_bin(edges, last - 1, x));
    } else {
        let prefix = edges.take(last as int);
        assert(strictly_increasing(prefix)) by {
            assert(forall|p: int, q: int| 0 <= p < q < prefix.len()
                ==> prefix[p] == edges[p] && prefix[q] == edges[q]);
        }
        lemma_in_range_has_bin(prefix, x);
        let i = choose|i: int| in_bin(prefix, i, x);
        assert(prefix[i] == edges[i] && prefix[i + 1] == edges[i + 1]);
        assert(in_bin(edges, i, x));
    }
}

/// The 2-D histogram: one shared edge array for both axes, a dense count
/// grid in row order (second coordinate major), and the number of accepted
/// fills, which bounds every cell.
pub struct Image {
    pub edges: Vec<i64>,
    pub counts: Vec<u64>,
    pub filled: u64,
}

impl Image {
    /// Number of bins per axis.
    pub open spec fn n_bins(self) -> int {
        self.edges@.len() - 1
    }

    /// Well-formedness: at least one bin, ascending edges, a full square
    /// grid, and no cell above the number of accepted fills.
    pub open spec fn wf(self) -> bool {
        &&& self.edges@.len() >= 2
        &&& strictly_increasing(self.edges@)
        &&& self.counts@.len() == self.n_bins() * self.n_bins()
        &&& forall|k: int| 0 <= k < self.counts@.len() ==> #[trigger] self.counts@[k] <= self.filled
    }

    /// Whether a coordinate lies inside the covered range of one axis.
    pub open spec fn in_range(self, x: int) -> bool {
        self.edges@[0] <= x < self.edges@[self.edges@.len() - 1]
    }

    /// A fresh histogram over the given edges, all cells zero.
    pub fn new(edges: Vec<i64>) -> (img: Image)
        requires
            edges@.len() >= 2,
            strictly_increasing(edges@),
            (edges@.len() - 1) * (edges@.len() - 1) <= usize::MAX,
        ensures
            img.wf(),
            img.edges@ == edges@,
            img.filled == 0,
            forall|k: int| 0 <= k < img.counts@.len() ==> #[trigger] img.counts@[k] == 0,
    {
        let n = edges.len() - 1;
        let total = n * n;
        let mut counts: Vec<u64> = Vec::new();
        let mut k: usize = 0;
        while k < total
            invariant
                0 <= k <= total,
                counts@.len() == k,
                forall|q: int| 0 <= q < k ==> #[trigger] counts@[q] == 0,
            decreases total - k,
        {
            counts.push(0);
            k = k + 1;
        }
        Image { edges, counts, filled: 0 }
    }

    /// Checked construction: succeeds exactly on a usable edge array — at
    /// least two edges, strictly ascending, grid size representable.
    pub fn try_new(edges: Vec<i64>) -> (r: Option<Image>)
        ensures
            match r {
                Some(img) => img.wf() && img.edges@ == edges@ && img.filled == 0
                    && (forall|k: int| 0 <= k < img.counts@.len() ==> #[trigger] img.counts@[k] == 0),
                None => !(edges@.len() >= 2 && strictly_increasing(edges@)
                    && (edges@.len() - 1) * (edges@.len() - 1) <= usize::MAX),
            },
    {
        if edges.len() < 2 {
            return None;
        }
        let mut i: usize = 1;
        while i < edges.len()
            invariant
                1 <= i <= edges@.len(),
                forall|p: int, q: int| 0 <= p < q < i ==> #[trigger] edges@[p] < #[trigger] edges@[q],
            decreases edges@.len() - i,
        {
            if edges[i - 1] >= edges[i] {
                return None;
            }
            proof {
                assert forall|p: int, q: int| 0 <= p < q < i + 1
                    implies #[trigger] edges@[p] < #[trigger] edges@[q] by {
                    if q == i {
                        assert(edges@[p] <= edges@[i - 1]);
                    }
                }
            }
            i = i + 1;
        }
        let n = edges.len() - 1;
        match n.checked_mul(n) {
            None => None,
            Some(_) => Some(Self::new(edges)),
        }
    }

    /// Locates the half-open bin holding `x`, if the coordinate lies in
    /// the covered range.
    pub fn find_bin(edges: &Vec<i64>, x: i64) -> (r: Option<usize>)
        requires
            edges@.len() >= 2,
            strictly_increasing(edges@),
        ensures
            match r {
                Some(i) => in_bin(edges@, i as int, x as int),
                None => !(edges@[0] <= x < edges@[edges@.len() - 1]),
            },
    {
        let mut i: usize = 0;
        while i < edges.len() - 1
            invariant
                0 <= i <= edges@.len() - 1,
                x < edges@[0] || edges@[i as int] <= x,
            decreases edges@.len() - i,
        {
            if edges[i] <= x && x < edges[i + 1] {
                return Some(i);
            }
            i = i + 1;
        }
        None
    }

    /// One fill: if both coordinates are in range, the unique cell they
    /// select gains one count; otherwise the point is dropped silently.
    pub fn fill(&mut self, x: i64, y: i64)
        requires
            old(self).wf(),
            old(self).filled < u64::MAX,
        ensures
            final(self).wf(),
            final(self).edges@ == old(self).edges@,
            old(self).in_range(x as int) && old(self).in_range(y as int) ==> {
                &&& final(self).filled == old(self).filled + 1
                &&& forall|ix: int, iy: int|
                    in_bin(old(self).edges@, ix, x as int) && in_bin(old(self).edges@, iy, y as int)
                        ==> final(self).counts@ == old(self).counts@.update(
                            iy * old(self).n_bins() + ix,
                            (old(self).counts@[iy * old(self).n_bins() + ix] + 1) as u64,
                        )
            },
            !(old(self).in_range(x as int) && old(self).in_range(y as int))
                ==> final(self).counts@ == old(self).counts@ && final(self).filled == old(self).filled,
    {
        let found_x = Self::find_bin(&self.edges, x);
        let found_y = Self::find_bin(&self.edges, y);
        match (found_x, found_y) {
            (Some(fx), Some(fy)) => {
                let n = self.edges.len() - 1;
                let total = self.counts.len();
                proof {
                    assert(total as int == (n as int) * (n as int));
                    assert((fy as int) * (n as int) + (fx as int) < (n as int) * (n as int))
                        by (nonlinear_arith)
                        requires
                            0 <= fx as int,
                            (fx as int) < (n as int),
                            0 <= fy as int,
                            (fy as int) < (n as int),
                    ;
                    assert((fy as int) * (n as int) + (fx as int) < total as int);
                }
                let idx = fy * n + fx;
                let c = self.counts[idx];
                self.counts.set(idx, c + 1);
                self.filled = self.filled + 1;
                proof {
                    assert forall|ix: int, iy: int|
                        in_bin(old(self).edges@, ix, x as int)
                            && in_bin(old(self).edges@, iy, y as int)
                        implies self.counts@ == old(self).counts@.update(
                            iy * old(self).n_bins() + ix,
                            (old(self).counts@[iy * old(self).n_bins() + ix] + 1) as u64,
                        ) by {
                        lemma_bin_unique(old(self).edges@, ix, fx as int, x as int);
                        lemma_bin_unique(old(self).edges@, iy, fy as int, y as int);
                    }
                }
            },
            _ => {
                proof {
                    if old(self).in_range(x as int) && old(self).in_range(y as int) {
                        assert(found_x is None || found_y is None);
                        assert(false);
                    }
                }
            },
        }
    }

    /// A copy of the raw grid, second coordinate major.
    pub fn data(&self) -> (v: Vec<u64>)
        ensures
            v@ == self.counts@,
    {
        let mut v: Vec<u64> = Vec::new();
        let mut k: usize = 0;
        while k < self.counts.len()
            invariant
                0 <= k <= self.counts@.len(),
                v@ == self.counts@.take(k as int),
            decreases self.counts@.len() - k,
        {
            v.push(self.counts[k]);
            proof {
                assert(self.counts@.take(k + 1) =~= self.counts@.take(k as int).push(self.counts@[k as int]));
            }
            k = k + 1;
        }
        proof {
            assert(self.counts@.take(self.counts@.len() as int) =~= self.counts@);
        }
        v
    }

    /// The per-sensor image: drops the first and last fine row and column,
    /// and of the remaining rows and columns keeps exactly those whose
    /// index minus one is divisible by three — the middle bin of each
    /// interior triplet. A stride sample, not a sum: gap-bin counts model
    /// light lost between sensors and are discarded.
    #[verifier::loop_isolation(false)]
    pub fn finalize(&self) -> (m: Vec<Vec<u64>>)
        requires
            self.wf(),
        ensures
            m@.len() == self.n_bins() / 3,
            forall|i: int| 0 <= i < m@.len() ==> #[trigger] m@[i]@.len() == self.n_bins() / 3,
            forall|i: int, j: int| 0 <= i < m@.len() && 0 <= j < m@.len()
                ==> #[trigger] m@[i]@[j] == self.counts@[(3 * i + 1) * self.n_bins() + (3 * j + 1)],
    {
        let n = self.edges.len() - 1;
        let side = n / 3;
        let total = self.counts.len();
        proof {
            assert(total as int == (n as int) * (n as int));
        }
        let mut m: Vec<Vec<u64>> = Vec::new();
        let mut i: usize = 0;
        while i < side
            invariant
                0 <= i <= side,
                side == self.n_bins() / 3,
                n == self.n_bins(),
                self.wf(),
                m@.len() == i,
                forall|a: int| 0 <= a < i ==> #[trigger] m@[a]@.len() == side,
                forall|a: int, b: int| 0 <= a < i && 0 <= b < side
                    ==> #[trigger] m@[a]@[b] == self.counts@[(3 * a + 1) * n as int + (3 * b + 1)],
            decreases side - i,
        {
            let mut row: Vec<u64> = Vec::new();
            let mut j: usize = 0;
            while j < side
                invariant
                    0 <= j <= side,
                    i < side,
                    side == self.n_bins() / 3,
                    n == self.n_bins(),
                    total == self.counts@.len(),
                    self.wf(),
                    row@.len() == j,
                    forall|b: int| 0 <= b < j
                        ==> #[trigger] row@[b] == self.counts@[(3 * i + 1) * n as int + (3 * b + 1)],
                decreases side - j,
            {
                proof {
                    assert(3 * (i as int) + 1 <= (n as int) - 2) by (nonlinear_arith)
                        requires (i as int) < (n as int) / 3, 0 <= i as int, (n as int) >= 0;
                    assert(3 * (j as int) + 1 <= (n as int) - 2) by (nonlinear_arith)
                        requires (j as int) < (n as int) / 3, 0 <= j as int, (n as int) >= 0;
                    assert((3 * (i as int) + 1) * (n as int) + (3 * (j as int) + 1)
                        < (n as int) * (n as int)) by (nonlinear_arith)
                        requires
                            0 <= 3 * (i as int) + 1,
                            3 * (i as int) + 1 <= (n as int) - 2,
                            0 <= 3 * (j as int) + 1,
                            3 * (j as int) + 1 <= (n as int) - 2,
                            (n as int) >= 2,
                    ;
                    assert((3 * (i as int) + 1) * (n as int) + (3 * (j as int) + 1) < total as int);
                }
                let idx = (3 * i + 1) * n + (3 * j + 1);
                row.push(self.counts[idx]);
                j = j + 1;
            }
            m.push(row);
            proof {
                assert forall|a: int, b: int| 0 <= a < i + 1 && 0 <= b < side
                    implies #[trigger] m@[a]@[b]
                        == self.counts@[(3 * a + 1) * n as int + (3 * b + 1)] by {
                    if a < i {
                        assert(m@[a] == m@.drop_last()[a]);
                    }
                }
            }
            i = i + 1;
        }
        m
    }
}

} // verus!
