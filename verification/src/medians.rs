//! Sliding median: two indexed heaps split the window's valid cells into a
//! lower and an upper half; the median is read off their roots.

use vstd::prelude::*;
use vstd::multiset::Multiset;
use rayon::iter::IntoParallelRefIterator;
use rayon::iter::ParallelIterator;
use crate::heaps::Indexed;
use crate::window::count_valid;
use crate::window::win_pairs;
use crate::window::win_start;

verus! {

/// One output cell of a median pass: missing, the middle value of an
/// odd-sized window, or the two values whose midpoint an even-sized window
/// calls for.
#[derive(Clone, Copy, Debug, PartialEq, Eq, Structural)]
pub enum MedianCell {
    Missing,
    Single(u64),
    Pair(u64, u64),
}

/// How many stored values sort strictly below `x`.
pub open spec fn num_below(m: Multiset<(u64, usize)>, x: u64) -> int {
    m.filter(|p: (u64, usize)| p.0 < x).len() as int
}

/// How many stored values sort at or below `x`.
pub open spec fn num_at_most(m: Multiset<(u64, usize)>, x: u64) -> int {
    m.filter(|p: (u64, usize)| p.0 <= x).len() as int
}

/// `x` is the `k`-th smallest value stored in `m` (1-indexed, ties
/// spanning their whole run of positions): fewer than `k` values lie
/// strictly below it, and at least `k` lie at or below it.
pub open spec fn is_kth_smallest(m: Multiset<(u64, usize)>, k: int, x: u64) -> bool {
    &&& num_below(m, x) <= k - 1
    &&& k <= num_at_most(m, x)
}

/// Filtering distributes over multiset union.
proof fn lemma_filter_add(
    a: Multiset<(u64, usize)>,
    b: Multiset<(u64, usize)>,
    f: spec_fn((u64, usize)) -> bool,
)
    ensures
        a.add(b).filter(f) == a.filter(f).add(b.filter(f)),
{
    broadcast use vstd::multiset::group_multiset_axioms;

    assert(a.add(b).filter(f) =~= a.filter(f).add(b.filter(f)));
}

/// A filter that keeps every stored pair changes nothing.
proof fn lemma_filter_all(m: Multiset<(u64, usize)>, f: spec_fn((u64, usize)) -> bool)
    requires
        forall|p: (u64, usize)| #[trigger] m.count(p) > 0 ==> f(p),
    ensures
        m.filter(f) == m,
{
    broadcast use vstd::multiset::group_multiset_axioms;

    assert(m.filter(f) =~= m);
}

/// A filter that keeps no stored pair empties the multiset.
proof fn lemma_filter_none(m: Multiset<(u64, usize)>, f: spec_fn((u64, usize)) -> bool)
    requires
        forall|p: (u64, usize)| #[trigger] m.count(p) > 0 ==> !f(p),
    ensures
        m.filter(f) == Multiset::<(u64, usize)>::empty(),
{
    broadcast use vstd::multiset::group_multiset_axioms;

    assert(m.filter(f) =~= Multiset::<(u64, usize)>::empty());
}

/// A multiset splits into a filter and its complement, so each filter's
/// size is bounded by the whole.
proof fn lemma_filter_complement(
    m: Multiset<(u64, usize)>,
    f: spec_fn((u64, usize)) -> bool,
    g: spec_fn((u64, usize)) -> bool,
)
    requires
        forall|p: (u64, usize)| #[trigger] f(p) <==> !g(p),
    ensures
        m.filter(f).add(m.filter(g)) == m,
        m.filter(f).len() + m.filter(g).len() == m.len(),
{
    broadcast use vstd::multiset::group_multiset_axioms;

    assert(m.filter(f).add(m.filter(g)) =~= m);
}

/// A sub-multiset is no larger than what contains it.
proof fn lemma_subset_len(a: Multiset<(u64, usize)>, b: Multiset<(u64, usize)>)
    requires
        a.subset_of(b),
    ensures
        a.len() <= b.len(),
{
    broadcast use vstd::multiset::group_multiset_axioms;

    assert(b =~= a.add(b.sub(a)));
}

/// The root of the lower half is the `|lower|`-th smallest value of the
/// union: every lower value sits at or below it, it is attained in the
/// lower half, and every upper value sits at or above it.
pub proof fn lemma_low_root_is_kth(lo: Multiset<(u64, usize)>, hi: Multiset<(u64, usize)>, x: u64)
    requires
        forall|p: (u64, usize)| #[trigger] lo.count(p) > 0 ==> p.0 <= x,
        exists|j: usize| #[trigger] lo.count((x, j)) > 0,
        forall|q: (u64, usize)| #[trigger] hi.count(q) > 0 ==> x <= q.0,
    ensures
        is_kth_smallest(lo.add(hi), lo.len() as int, x),
{
    broadcast use vstd::multiset::group_multiset_axioms;

    let m = lo.add(hi);
    let fle = |p: (u64, usize)| p.0 <= x;
    let flt = |p: (u64, usize)| p.0 < x;
    let fge = |p: (u64, usize)| !(p.0 < x);
    lemma_filter_add(lo, hi, fle);
    lemma_filter_add(lo, hi, flt);
    lemma_filter_all(lo, fle);
    assert(num_at_most(m, x) >= lo.len());
    lemma_filter_none(hi, flt);
    lemma_filter_complement(lo, flt, fge);
    let j = choose|j: usize| lo.count((x, j)) > 0;
    assert(lo.filter(fge).count((x, j)) > 0);
    assert(lo.filter(fge).len() >= 1);
    assert(num_below(m, x) == lo.filter(flt).len());
    assert(num_below(m, x) <= lo.len() - 1);
}

/// The root of the upper half is the `|lower| + 1`-th smallest value of
/// the union.
pub proof fn lemma_high_root_is_next(
    lo: Multiset<(u64, usize)>,
    hi: Multiset<(u64, usize)>,
    y: u64,
)
    requires
        forall|p: (u64, usize)| #[trigger] lo.count(p) > 0 ==> p.0 <= y,
        exists|j: usize| #[trigger] hi.count((y, j)) > 0,
        forall|q: (u64, usize)| #[trigger] hi.count(q) > 0 ==> y <= q.0,
    ensures
        is_kth_smallest(lo.add(hi), lo.len() as int + 1, y),
{
    broadcast use vstd::multiset::group_multiset_axioms;

    let m = lo.add(hi);
    let fle = |p: (u64, usize)| p.0 <= y;
    let flt = |p: (u64, usize)| p.0 < y;
    lemma_filter_add(lo, hi, fle);
    lemma_filter_add(lo, hi, flt);
    lemma_filter_all(lo, fle);
    lemma_filter_none(hi, flt);
    let j = choose|j: usize| hi.count((y, j)) > 0;
    assert(hi.filter(fle).count((y, j)) > 0);
    assert(hi.filter(fle).len() >= 1);
    assert(num_at_most(m, y) >= lo.len() + 1);
    assert(lo.filter(flt).subset_of(lo)) by {
        assert(forall|p: (u64, usize)|
            #[trigger] lo.filter(flt).count(p) <= lo.count(p));
    }
    lemma_subset_len(lo.filter(flt), lo);
    assert(num_below(m, y) <= lo.len());
}

/// Only one value can be the `k`-th smallest of a multiset.
pub proof fn lemma_kth_unique(m: Multiset<(u64, usize)>, k: int, x: u64, y: u64)
    requires
        is_kth_smallest(m, k, x),
        is_kth_smallest(m, k, y),
    ensures
        x == y,
{
    broadcast use vstd::multiset::group_multiset_axioms;

    if x != y {
        let (a, b) = if x < y {
            (x, y)
        } else {
            (y, x)
        };
        let fle = |p: (u64, usize)| p.0 <= a;
        let flt = |p: (u64, usize)| p.0 < b;
        assert(m.filter(fle).subset_of(m.filter(flt))) by {
            assert(forall|p: (u64, usize)|
                #[trigger] m.filter(fle).count(p) <= m.filter(flt).count(p));
        }
        lemma_subset_len(m.filter(fle), m.filter(flt));
        assert(num_at_most(m, a) <= num_below(m, b));
        assert(false);
    }
}

/// What a median pass owes at row `r`: missing while the window holds
/// fewer than `min_length` valid observations; the middle value of an
/// odd-sized window; the two middle values of an even-sized one.
pub open spec fn median_ok(
    col: Seq<Option<u64>>,
    r: int,
    length: int,
    min_length: int,
    cell: MedianCell,
) -> bool {
    let s = win_start(r, length);
    let n = count_valid(col, s, r + 1);
    let m = win_pairs(col, s, r + 1).to_multiset();
    if n < min_length {
        cell is Missing
    } else if n % 2 == 1 {
        cell matches MedianCell::Single(x) && is_kth_smallest(m, (n + 1) / 2, x)
    } else {
        cell matches MedianCell::Pair(a, b) && is_kth_smallest(m, n / 2, a) && is_kth_smallest(
            m,
            n / 2 + 1,
            b,
        )
    }
}

/// The two half-heaps agree: max-heap below, min-heap above, sides of one
/// row universe, every lower value at or below every upper value, and no
/// row stored twice.
pub open spec fn halves_wf(lo: &Indexed, hi: &Indexed, nrows: int) -> bool {
    &&& lo.wf()
    &&& hi.wf()
    &&& lo.is_max_heap
    &&& !hi.is_max_heap
    &&& lo.positions@.len() == nrows
    &&& hi.positions@.len() == nrows
    &&& forall|p: (u64, usize), q: (u64, usize)|
        #[trigger] lo.contents().count(p) > 0 && #[trigger] hi.contents().count(q) > 0 ==> p.0
            <= q.0
    &&& forall|j: int| !(#[trigger] lo.has_row(j) && hi.has_row(j))
}

/// Every pair stored across the two halves of a window lists a valid cell
/// of the window's row range.
pub proof fn lemma_union_rows(
    col: Seq<Option<u64>>,
    s: int,
    e: int,
    u: Multiset<(u64, usize)>,
)
    requires
        0 <= s <= e <= col.len() <= usize::MAX,
        u == win_pairs(col, s, e).to_multiset(),
    ensures
        forall|v: u64, j: usize|
            #[trigger] u.count((v, j)) > 0 ==> s <= j < e && col[j as int] == Some(v),
{
    crate::window::lemma_win_pairs_properties(col, s, e);
    assert forall|v: u64, j: usize| #[trigger] u.count((v, j)) > 0 implies s <= j < e
        && col[j as int] == Some(v) by {
        vstd::seq_lib::to_multiset_contains(win_pairs(col, s, e), (v, j));
        let i = choose|i: int|
            0 <= i < win_pairs(col, s, e).len() && win_pairs(col, s, e)[i] == (v, j);
    }
}

/// The sliding state of one median pass: the lower and upper half-heaps,
/// the ring of window cells (missing ones included, so eviction stays in
/// step with the window), and the window bookkeeping.
pub struct MedianWindow {
    pub small_heap: Indexed,
    pub large_heap: Indexed,
    pub window_q: std::collections::VecDeque<(Option<u64>, usize)>,
    pub window: crate::calculators::WindowState,
}

impl MedianWindow {
    /// The state is sound after `e` rows of `col` have been fed in with
    /// window length `length`: the halves hold exactly the valid cells of
    /// the current window, balanced so the median sits at their roots, the
    /// ring mirrors the window's rows, and the count is the window's.
    pub open spec fn inv(&self, col: Seq<Option<u64>>, e: int, length: int) -> bool {
        let s = win_start(e - 1, length);
        &&& 0 <= e <= col.len() <= usize::MAX
        &&& 1 <= length
        &&& halves_wf(&self.small_heap, &self.large_heap, col.len() as int)
        &&& self.small_heap.contents().add(self.large_heap.contents()) == win_pairs(
            col,
            s,
            e,
        ).to_multiset()
        &&& self.large_heap.heap@.len() <= self.small_heap.heap@.len()
            <= self.large_heap.heap@.len() + 1
        &&& self.small_heap.heap@.len() + self.large_heap.heap@.len() == count_valid(col, s, e)
        &&& self.window_q@.len() == e - s
        &&& forall|i: int|
            0 <= i < self.window_q@.len() ==> #[trigger] self.window_q@[i] == (
            col[s + i],
            (s + i) as usize,
            )
        &&& self.window.observations == count_valid(col, s, e)
    }

    pub fn new(length: usize, num_rows: usize) -> (w: MedianWindow)
        requires
            1 <= length,
        ensures
            w.small_heap.heap@.len() == 0,
            w.large_heap.heap@.len() == 0,
            w.window_q@.len() == 0,
            w.window.observations == 0,
            halves_wf(&w.small_heap, &w.large_heap, num_rows as int),
            forall|col: Seq<Option<u64>>|
                col.len() == num_rows && num_rows <= usize::MAX && 1 <= length ==> w.inv(
                    col,
                    0,
                    length as int,
                ),
    {
        let w = MedianWindow {
            small_heap: Indexed::new(length, num_rows, true),
            large_heap: Indexed::new(length, num_rows, false),
            window_q: std::collections::VecDeque::with_capacity(length),
            window: crate::calculators::WindowState::new(),
        };
        proof {
            broadcast use vstd::multiset::group_multiset_axioms;

            assert forall|col: Seq<Option<u64>>|
                col.len() == num_rows && num_rows <= usize::MAX && 1 <= length implies w.inv(
                col,
                0,
                length as int,
            ) by {
                assert(win_start(-1, length as int) == 0);
                assert(win_pairs(col, 0, 0) =~= Seq::<(u64, usize)>::empty());
                vstd::seq_lib::to_multiset_len(win_pairs(col, 0, 0));
                assert(w.small_heap.contents().add(w.large_heap.contents()) =~= win_pairs(
                    col,
                    0,
                    0,
                ).to_multiset());
            }
        }
        w
    }

    /// Send the arriving value to the half it belongs to: below the lower
    /// root it joins the lower half, above it the upper half.
    fn place(&mut self, v: u64, row: usize)
        requires
            halves_wf(&old(self).small_heap, &old(self).large_heap, old(self).spec_nrows()),
            (row as int) < old(self).spec_nrows(),
            !old(self).small_heap.has_row(row as int),
            !old(self).large_heap.has_row(row as int),
            old(self).large_heap.heap@.len() <= old(self).small_heap.heap@.len(),
            old(self).small_heap.heap@.len() <= old(self).large_heap.heap@.len() + 1,
        ensures
            halves_wf(&final(self).small_heap, &final(self).large_heap, old(self).spec_nrows()),
            final(self).small_heap.contents().add(final(self).large_heap.contents()) == old(
                self,
            ).small_heap.contents().add(old(self).large_heap.contents()).insert((v, row)),
            final(self).small_heap.heap@.len() + final(self).large_heap.heap@.len() == old(
                self,
            ).small_heap.heap@.len() + old(self).large_heap.heap@.len() + 1,
            final(self).large_heap.heap@.len() - 1 <= final(self).small_heap.heap@.len(),
            final(self).small_heap.heap@.len() <= final(self).large_heap.heap@.len() + 2,
            forall|j: int|
                j != row as int ==> (final(self).small_heap.has_row(j) <==> old(
                    self,
                ).small_heap.has_row(j)) && (final(self).large_heap.has_row(j) <==> old(
                    self,
                ).large_heap.has_row(j)),
            final(self).window_q == old(self).window_q,
            final(self).window == old(self).window,
    {
        broadcast use vstd::multiset::group_multiset_axioms;

        let go_large = match self.small_heap.peek() {
            Some(ms) => v > ms.0,
            None => false,
        };
        if go_large {
            let ghost pre = *self;
            proof {
                let ms0 = self.small_heap.heap@[0].0;
                assert forall|p: (u64, usize)| #[trigger] self.small_heap.contents().count(p) > 0
                    implies p.0 <= v by {
                    assert(self.small_heap.above(ms0, p.0));
                }
            }
            self.large_heap.push(v, row);
            proof {
                assert forall|p: (u64, usize), q: (u64, usize)|
                    #[trigger] self.small_heap.contents().count(p) > 0
                        && #[trigger] self.large_heap.contents().count(q) > 0 implies p.0
                    <= q.0 by {
                    if q == (v, row) {
                        assert(p.0 <= v);
                    } else {
                        assert(pre.large_heap.contents().count(q) > 0);
                    }
                }
            }
        } else {
            proof {
                if self.small_heap.heap@.len() > 0 {
                    let ghost ms0 = self.small_heap.heap@[0];
                    assert(self.small_heap.contents().count(ms0) > 0) by {
                        vstd::seq_lib::to_multiset_contains(self.small_heap.heap@, ms0);
                    }
                    assert forall|q: (u64, usize)| #[trigger] self.large_heap.contents().count(q)
                        > 0 implies v <= q.0 by {
                        assert(ms0.0 <= q.0);
                    }
                } else {
                    assert(self.large_heap.heap@.len() == 0);
                    vstd::seq_lib::to_multiset_len(self.large_heap.heap@);
                    assert forall|q: (u64, usize)| #[trigger] self.large_heap.contents().count(q)
                        > 0 implies v <= q.0 by {}
                }
            }
            let ghost pre = *self;
            self.small_heap.push(v, row);
            proof {
                assert forall|p: (u64, usize), q: (u64, usize)|
                    #[trigger] self.small_heap.contents().count(p) > 0
                        && #[trigger] self.large_heap.contents().count(q) > 0 implies p.0
                    <= q.0 by {
                    if p == (v, row) {
                        assert(v <= q.0);
                    } else {
                        assert(pre.small_heap.contents().count(p) > 0);
                    }
                }
            }
        }
    }

    /// The shared row universe of the two halves.
    pub open spec fn spec_nrows(&self) -> int {
        self.small_heap.positions@.len() as int
    }

    /// Drop the stored pair of the evicted row from whichever half holds
    /// it.
    fn expel(&mut self, pidx: usize, Ghost(v): Ghost<u64>)
        requires
            halves_wf(&old(self).small_heap, &old(self).large_heap, old(self).spec_nrows()),
            (pidx as int) < old(self).spec_nrows(),
            old(self).small_heap.contents().add(old(self).large_heap.contents()).count(
                (v, pidx),
            ) > 0,
        ensures
            halves_wf(&final(self).small_heap, &final(self).large_heap, old(self).spec_nrows()),
            final(self).small_heap.contents().add(final(self).large_heap.contents()) == old(
                self,
            ).small_heap.contents().add(old(self).large_heap.contents()).remove((v, pidx)),
            final(self).small_heap.heap@.len() + final(self).large_heap.heap@.len() == old(
                self,
            ).small_heap.heap@.len() + old(self).large_heap.heap@.len() - 1,
            !final(self).small_heap.has_row(pidx as int),
            !final(self).large_heap.has_row(pidx as int),
            forall|j: int|
                j != pidx as int ==> (final(self).small_heap.has_row(j) <==> old(
                    self,
                ).small_heap.has_row(j)) && (final(self).large_heap.has_row(j) <==> old(
                    self,
                ).large_heap.has_row(j)),
            final(self).window_q == old(self).window_q,
            final(self).window == old(self).window,
    {
        broadcast use vstd::multiset::group_multiset_axioms;

        proof {
            if self.small_heap.contents().count((v, pidx)) > 0 {
                self.small_heap.lemma_contents_has_row(v, pidx);
            } else {
                self.large_heap.lemma_contents_has_row(v, pidx);
            }
        }
        let removed = self.small_heap.remove(pidx);
        if !removed {
            proof {
                assert(old(self).small_heap.contents().count((v, pidx)) == 0) by {
                    if old(self).small_heap.contents().count((v, pidx)) > 0 {
                        old(self).small_heap.lemma_contents_has_row(v, pidx);
                    }
                }
                assert(old(self).large_heap.contents().count((v, pidx)) > 0);
                old(self).large_heap.lemma_contents_has_row(v, pidx);
            }
            let removed_large = self.large_heap.remove(pidx);
            proof {
                assert(removed_large);
                assert(old(self).large_heap.row_val(pidx as int) == v);
            }
        } else {
            proof {
                assert(old(self).small_heap.contents().count((v, pidx)) > 0) by {
                    if old(self).large_heap.contents().count((v, pidx)) > 0 {
                        old(self).large_heap.lemma_contents_has_row(v, pidx);
                        assert(old(self).small_heap.has_row(pidx as int));
                        assert(false);
                    }
                }
                old(self).small_heap.lemma_contents_has_row(v, pidx);
                assert(old(self).small_heap.row_val(pidx as int) == v);
            }
        }
    }

    /// Move roots between the halves until the lower half holds the upper
    /// median position: never smaller than the upper half, at most one
    /// larger.
    fn rebalance(&mut self)
        requires
            halves_wf(&old(self).small_heap, &old(self).large_heap, old(self).spec_nrows()),
        ensures
            halves_wf(&final(self).small_heap, &final(self).large_heap, old(self).spec_nrows()),
            final(self).small_heap.contents().add(final(self).large_heap.contents()) == old(
                self,
            ).small_heap.contents().add(old(self).large_heap.contents()),
            final(self).small_heap.heap@.len() + final(self).large_heap.heap@.len() == old(
                self,
            ).small_heap.heap@.len() + old(self).large_heap.heap@.len(),
            final(self).large_heap.heap@.len() <= final(self).small_heap.heap@.len(),
            final(self).small_heap.heap@.len() <= final(self).large_heap.heap@.len() + 1,
            final(self).window_q == old(self).window_q,
            final(self).window == old(self).window,
    {
        broadcast use vstd::multiset::group_multiset_axioms;

        let ghost nrows = old(self).spec_nrows();
        while self.large_heap.len() < self.small_heap.len() && self.small_heap.len()
            - self.large_heap.len() >= 2
            invariant
                halves_wf(&self.small_heap, &self.large_heap, nrows),
                self.small_heap.contents().add(self.large_heap.contents()) == old(
                    self,
                ).small_heap.contents().add(old(self).large_heap.contents()),
                self.small_heap.heap@.len() + self.large_heap.heap@.len() == old(
                    self,
                ).small_heap.heap@.len() + old(self).large_heap.heap@.len(),
                self.window_q == old(self).window_q,
                self.window == old(self).window,
            decreases self.small_heap.heap@.len(),
        {
            let ghost pre = *self;
            let top = self.small_heap.pop();
            let pair = top.unwrap();
            proof {
                assert(pre.small_heap.contents().count(pair) > 0) by {
                    vstd::seq_lib::to_multiset_contains(pre.small_heap.heap@, pair);
                }
                assert(!self.large_heap.has_row(pair.1 as int)) by {
                    pre.small_heap.lemma_contents_has_row(pair.0, pair.1);
                }
                assert forall|p: (u64, usize)| #[trigger] self.small_heap.contents().count(p) > 0
                    implies p.0 <= pair.0 by {
                    assert(pre.small_heap.contents().count(p) > 0);
                }
            }
            self.large_heap.push(pair.0, pair.1);
            proof {
                assert forall|p: (u64, usize), q: (u64, usize)|
                    #[trigger] self.small_heap.contents().count(p) > 0
                        && #[trigger] self.large_heap.contents().count(q) > 0 implies p.0
                    <= q.0 by {
                    if q == (pair.0, pair.1) {
                        assert(p.0 <= pair.0);
                    } else {
                        assert(pre.large_heap.contents().count(q) > 0);
                        assert(pre.small_heap.contents().count(p) > 0);
                    }
                }
                assert(self.small_heap.contents().add(self.large_heap.contents()) =~= pre
                    .small_heap.contents().add(pre.large_heap.contents()));
            }
        }
        while self.large_heap.len() > self.small_heap.len()
            invariant
                halves_wf(&self.small_heap, &self.large_heap, nrows),
                self.small_heap.contents().add(self.large_heap.contents()) == old(
                    self,
                ).small_heap.contents().add(old(self).large_heap.contents()),
                self.small_heap.heap@.len() + self.large_heap.heap@.len() == old(
                    self,
                ).small_heap.heap@.len() + old(self).large_heap.heap@.len(),
                self.small_heap.heap@.len() <= self.large_heap.heap@.len() + 1,
                self.window_q == old(self).window_q,
                self.window == old(self).window,
            decreases self.large_heap.heap@.len(),
        {
            let ghost pre = *self;
            let top = self.large_heap.pop();
            let pair = top.unwrap();
            proof {
                assert(pre.large_heap.contents().count(pair) > 0) by {
                    vstd::seq_lib::to_multiset_contains(pre.large_heap.heap@, pair);
                }
                assert(!self.small_heap.has_row(pair.1 as int)) by {
                    pre.large_heap.lemma_contents_has_row(pair.0, pair.1);
                }
                assert forall|q: (u64, usize)| #[trigger] self.large_heap.contents().count(q) > 0
                    implies pair.0 <= q.0 by {
                    assert(pre.large_heap.contents().count(q) > 0);
                }
            }
            self.small_heap.push(pair.0, pair.1);
            proof {
                assert forall|p: (u64, usize), q: (u64, usize)|
                    #[trigger] self.small_heap.contents().count(p) > 0
                        && #[trigger] self.large_heap.contents().count(q) > 0 implies p.0
                    <= q.0 by {
                    if p == (pair.0, pair.1) {
                        assert(pair.0 <= q.0);
                    } else {
                        assert(pre.small_heap.contents().count(p) > 0);
                        assert(pre.large_heap.contents().count(q) > 0);
                    }
                }
                assert(self.small_heap.contents().add(self.large_heap.contents()) =~= pre
                    .small_heap.contents().add(pre.large_heap.contents()));
            }
        }
    }

    /// One full row of the median protocol: record the cell in the ring,
    /// send a valid value to its half, evict the row that leaves the
    /// window, rebalance, and read the median once enough observations are
    /// in.
    #[verifier::rlimit(100)]
    pub fn step(
        &mut self,
        input_col: &Vec<Option<u64>>,
        row: usize,
        length: usize,
        min_length: usize,
    ) -> (cell: MedianCell)
        requires
            old(self).inv(input_col@, row as int, length as int),
            (row as int) < input_col@.len(),
            1 <= min_length <= length,
        ensures
            final(self).inv(input_col@, row as int + 1, length as int),
            median_ok(input_col@, row as int, length as int, min_length as int, cell),
    {
        broadcast use vstd::multiset::group_multiset_axioms;

        let ghost col = input_col@;
        let ghost sprev = win_start(row as int - 1, length as int);
        let ghost snew = win_start(row as int, length as int);
        let current = input_col[row];
        self.window.current = current;
        self.window_q.push_back((current, row));
        proof {
            crate::window::lemma_count_valid_bounds(col, sprev, row as int);
            lemma_union_rows(
                col,
                sprev,
                row as int,
                self.small_heap.contents().add(self.large_heap.contents()),
            );
        }
        match current {
            Some(v) => {
                proof {
                    assert(!self.small_heap.has_row(row as int)) by {
                        if self.small_heap.has_row(row as int) {
                            self.small_heap.lemma_has_row_contents(row as int);
                            assert(self.small_heap.contents().add(
                                self.large_heap.contents(),
                            ).count((self.small_heap.row_val(row as int), row)) > 0);
                            assert(false);
                        }
                    }
                    assert(!self.large_heap.has_row(row as int)) by {
                        if self.large_heap.has_row(row as int) {
                            self.large_heap.lemma_has_row_contents(row as int);
                            assert(self.small_heap.contents().add(
                                self.large_heap.contents(),
                            ).count((self.large_heap.row_val(row as int), row)) > 0);
                            assert(false);
                        }
                    }
                }
                self.place(v, row);
                self.window.observations = self.window.observations + 1;
                proof {
                    assert(win_pairs(col, sprev, row as int + 1) == win_pairs(
                        col,
                        sprev,
                        row as int,
                    ).push((v, row)));
                    vstd::seq_lib::to_multiset_build(win_pairs(col, sprev, row as int), (v, row));
                }
            },
            None => {
                proof {
                    assert(win_pairs(col, sprev, row as int + 1) == win_pairs(
                        col,
                        sprev,
                        row as int,
                    ));
                }
            },
        }
        proof {
            assert(self.small_heap.contents().add(self.large_heap.contents()) == win_pairs(
                col,
                sprev,
                row as int + 1,
            ).to_multiset());
            assert(self.window.observations == count_valid(col, sprev, row as int + 1));
        }
        if self.window_q.len() > length {
            proof {
                assert(self.window_q@.len() == row as int + 1 - sprev);
                assert(row >= length);
                assert(sprev == row - length);
                assert(snew == sprev + 1);
                crate::window::lemma_count_valid_drop_lo(col, sprev, row as int + 1);
                crate::window::lemma_count_valid_bounds(col, sprev + 1, row as int + 1);
                crate::window::lemma_win_pairs_drop_lo(col, sprev, row as int + 1);
            }
            let front_opt = self.window_q.pop_front();
            let front = front_opt.unwrap();
            self.window.precedent = front.0;
            self.window.precedent_idx = front.1;
            proof {
                assert(front == (col[sprev], sprev as usize));
            }
            match front.0 {
                Some(pv) => {
                    self.window.observations = self.window.observations - 1;
                    proof {
                        assert(self.small_heap.contents().add(self.large_heap.contents()).count(
                            (pv, (row - length) as usize),
                        ) > 0);
                    }
                    self.expel((row - length) as usize, Ghost(pv));
                    proof {
                        assert(self.small_heap.contents().add(self.large_heap.contents())
                            =~= win_pairs(col, snew, row as int + 1).to_multiset());
                    }
                },
                None => (),
            }
        } else {
            proof {
                assert(self.window_q@.len() == row as int + 1 - sprev);
                assert(snew == sprev);
            }
        }
        proof {
            assert(self.small_heap.contents().add(self.large_heap.contents()) == win_pairs(
                col,
                snew,
                row as int + 1,
            ).to_multiset());
            assert(self.window.observations == count_valid(col, snew, row as int + 1));
        }
        self.rebalance();
        proof {
            vstd::seq_lib::to_multiset_len(self.small_heap.heap@);
            vstd::seq_lib::to_multiset_len(self.large_heap.heap@);
            crate::window::lemma_win_pairs_len(col, snew, row as int + 1);
            vstd::seq_lib::to_multiset_len(win_pairs(col, snew, row as int + 1));
            assert(self.small_heap.heap@.len() + self.large_heap.heap@.len() == count_valid(
                col,
                snew,
                row as int + 1,
            ));
        }
        let cell = if self.window.observations >= min_length {
            self.current_median()
        } else {
            MedianCell::Missing
        };
        proof {
            assert forall|i: int| 0 <= i < self.window_q@.len() implies #[trigger] self
                .window_q@[i] == (col[snew + i], (snew + i) as usize) by {}
        }
        cell
    }

    /// Read the median off the half roots: the lower root alone when the
    /// halves are uneven, both roots when they are even.
    fn current_median(&self) -> (cell: MedianCell)
        requires
            halves_wf(&self.small_heap, &self.large_heap, self.spec_nrows()),
            self.large_heap.heap@.len() <= self.small_heap.heap@.len()
                <= self.large_heap.heap@.len() + 1,
            self.small_heap.heap@.len() + self.large_heap.heap@.len() >= 1,
        ensures
            ({
                let m = self.small_heap.contents().add(self.large_heap.contents());
                let n = self.small_heap.heap@.len() + self.large_heap.heap@.len();
                if n % 2 == 1 {
                    cell matches MedianCell::Single(x) && is_kth_smallest(m, ((n + 1) / 2) as int, x)
                } else {
                    cell matches MedianCell::Pair(a, b) && is_kth_smallest(m, (n / 2) as int, a)
                        && is_kth_smallest(m, (n / 2 + 1) as int, b)
                }
            }),
    {
        broadcast use vstd::multiset::group_multiset_axioms;

        let ghost lo = self.small_heap.contents();
        let ghost hi = self.large_heap.contents();
        proof {
            vstd::seq_lib::to_multiset_len(self.small_heap.heap@);
            vstd::seq_lib::to_multiset_len(self.large_heap.heap@);
        }
        let s_root = self.small_heap.peek().unwrap();
        proof {
            assert(lo.count(s_root) > 0) by {
                vstd::seq_lib::to_multiset_contains(self.small_heap.heap@, s_root);
            }
            assert forall|p: (u64, usize)| #[trigger] lo.count(p) > 0 implies p.0 <= s_root.0 by {
                assert(self.small_heap.above(s_root.0, p.0));
            }
        }
        if self.small_heap.len() > self.large_heap.len() {
            proof {
                assert forall|q: (u64, usize)| #[trigger] hi.count(q) > 0 implies s_root.0
                    <= q.0 by {}
                lemma_low_root_is_kth(lo, hi, s_root.0);
                assert(lo.count((s_root.0, s_root.1)) > 0);
            }
            MedianCell::Single(s_root.0)
        } else {
            let l_root = self.large_heap.peek().unwrap();
            proof {
                assert(hi.count(l_root) > 0) by {
                    vstd::seq_lib::to_multiset_contains(self.large_heap.heap@, l_root);
                }
                assert forall|q: (u64, usize)| #[trigger] hi.count(q) > 0 implies s_root.0
                    <= q.0 by {}
                lemma_low_root_is_kth(lo, hi, s_root.0);
                assert(lo.count((s_root.0, s_root.1)) > 0);
                assert forall|p: (u64, usize)| #[trigger] lo.count(p) > 0 implies p.0
                    <= l_root.0 by {}
                assert forall|q: (u64, usize)| #[trigger] hi.count(q) > 0 implies l_root.0
                    <= q.0 by {
                    assert(self.large_heap.above(l_root.0, q.0));
                }
                lemma_high_root_is_next(lo, hi, l_root.0);
                assert(hi.count((l_root.0, l_root.1)) > 0);
            }
            MedianCell::Pair(s_root.0, l_root.0)
        }
    }
}

/// Two cells that both satisfy the median obligation at one row are the
/// same cell: the window's median is unique.
pub proof fn lemma_median_unique(
    col: Seq<Option<u64>>,
    r: int,
    length: int,
    min_length: int,
    c1: MedianCell,
    c2: MedianCell,
)
    requires
        median_ok(col, r, length, min_length, c1),
        median_ok(col, r, length, min_length, c2),
    ensures
        c1 == c2,
{
    let s = win_start(r, length);
    let n = count_valid(col, s, r + 1);
    let m = win_pairs(col, s, r + 1).to_multiset();
    if n >= min_length {
        if n % 2 == 1 {
            lemma_kth_unique(m, (n + 1) / 2, c1->Single_0, c2->Single_0);
        } else {
            lemma_kth_unique(m, n / 2, c1->Pair_0, c2->Pair_0);
            lemma_kth_unique(m, n / 2 + 1, c1->Pair_1, c2->Pair_1);
        }
    }
}

/// The median pass over a whole column, characterised cell by cell.
pub open spec fn median_col_ok(
    col: Seq<Option<u64>>,
    length: int,
    min_length: int,
    out: Seq<MedianCell>,
) -> bool {
    &&& out.len() == col.len()
    &&& forall|r: int| 0 <= r < col.len() ==> median_ok(col, r, length, min_length, #[trigger] out[r])
}

/// One column of the sliding-median pass.
pub fn process_median_column(
    input_col: &Vec<Option<u64>>,
    length: usize,
    min_length: usize,
) -> (out: Vec<MedianCell>)
    requires
        1 <= min_length <= length <= input_col@.len(),
    ensures
        median_col_ok(input_col@, length as int, min_length as int, out@),
{
    let num_rows = input_col.len();
    let mut state = MedianWindow::new(length, num_rows);
    let mut out: Vec<MedianCell> = Vec::new();
    let mut row: usize = 0;
    proof {
        assert(state.inv(input_col@, 0, length as int));
    }
    while row < num_rows
        invariant
            1 <= min_length <= length <= input_col@.len(),
            num_rows == input_col@.len(),
            row <= num_rows,
            out@.len() == row,
            state.inv(input_col@, row as int, length as int),
            forall|r: int|
                0 <= r < row ==> median_ok(
                    input_col@,
                    r,
                    length as int,
                    min_length as int,
                    #[trigger] out@[r],
                ),
        decreases num_rows - row,
    {
        let cell = state.step(input_col, row, length, min_length);
        out.push(cell);
        row = row + 1;
    }
    out
}

/// Relies on rayon: `par_iter().map(..).collect::<Vec<_>>()` returns one
/// result per column in column order, and the closure only runs the
/// verified sequential pass [`process_median_column`] on its column.
#[verifier::external_body]
fn par_median_columns(input: &Vec<Vec<Option<u64>>>, length: usize, min_length: usize) -> (out:
    Vec<Vec<MedianCell>>)
    requires
        1 <= min_length <= length,
        forall|c: int| 0 <= c < input@.len() ==> length <= #[trigger] input@[c]@.len(),
    ensures
        out@.len() == input@.len(),
        forall|c: int|
            0 <= c < out@.len() ==> median_col_ok(
                input@[c]@,
                length as int,
                min_length as int,
                #[trigger] out@[c]@,
            ),
{
    input.par_iter().map(|col| process_median_column(col, length, min_length)).collect()
}

/// The moving median of a whole matrix of columns; the parallel fan-out
/// leaves every output column satisfying the same cell-by-cell obligation
/// the sequential walk establishes, and [`lemma_median_unique`] makes that
/// obligation pin each cell.
pub fn move_median(
    input: &Vec<Vec<Option<u64>>>,
    length: usize,
    min_length: usize,
    parallel: bool,
) -> (out: Vec<Vec<MedianCell>>)
    requires
        1 <= min_length <= length,
        forall|c: int| 0 <= c < input@.len() ==> length <= #[trigger] input@[c]@.len(),
    ensures
        out@.len() == input@.len(),
        forall|c: int|
            0 <= c < out@.len() ==> median_col_ok(
                input@[c]@,
                length as int,
                min_length as int,
                #[trigger] out@[c]@,
            ),
{
    if parallel {
        par_median_columns(input, length, min_length)
    } else {
        let num_cols = input.len();
        let mut out: Vec<Vec<MedianCell>> = Vec::new();
        let mut c: usize = 0;
        while c < num_cols
            invariant
                num_cols == input@.len(),
                c <= num_cols,
                out@.len() == c,
                1 <= min_length <= length,
                forall|k: int| 0 <= k < input@.len() ==> length <= #[trigger] input@[k]@.len(),
                forall|k: int|
                    0 <= k < c ==> median_col_ok(
                        input@[k]@,
                        length as int,
                        min_length as int,
                        #[trigger] out@[k]@,
                    ),
            decreases num_cols - c,
        {
            let col_out = process_median_column(&input[c], length, min_length);
            out.push(col_out);
            c = c + 1;
        }
        out
    }
}

/// Value-sorted: every earlier pair's value is at or below every later
/// one's.
pub open spec fn sorted_pairs(s: Seq<(u64, usize)>) -> bool {
    forall|i: int, k: int| 0 <= i < k < s.len() ==> (#[trigger] s[i]).0 <= (#[trigger] s[k]).0
}

/// Gather the valid cells of a column, each with its row, in row order.
fn collect_pairs(input_col: &Vec<Option<u64>>) -> (out: Vec<(u64, usize)>)
    ensures
        out@ == win_pairs(input_col@, 0, input_col@.len() as int),
{
    let num_rows = input_col.len();
    let mut out: Vec<(u64, usize)> = Vec::new();
    let mut row: usize = 0;
    while row < num_rows
        invariant
            num_rows == input_col@.len(),
            row <= num_rows,
            out@ == win_pairs(input_col@, 0, row as int),
        decreases num_rows - row,
    {
        match input_col[row] {
            Some(v) => {
                out.push((v, row));
            },
            None => (),
        }
        row = row + 1;
    }
    out
}

/// Sort the pairs by value, keeping the same pairs.
fn sort_pairs(v: &mut Vec<(u64, usize)>)
    ensures
        sorted_pairs(final(v)@),
        final(v)@.to_multiset() == old(v)@.to_multiset(),
        final(v)@.len() == old(v)@.len(),
{
    broadcast use vstd::seq_lib::group_to_multiset_ensures;

    let n = v.len();
    let mut i: usize = 0;
    while i < n
        invariant
            n == v@.len(),
            i <= n,
            v@.to_multiset() == old(v)@.to_multiset(),
            forall|a: int, b: int|
                0 <= a < b < i ==> (#[trigger] v@[a]).0 <= (#[trigger] v@[b]).0,
            forall|a: int, b: int|
                0 <= a < i <= b < n ==> (#[trigger] v@[a]).0 <= (#[trigger] v@[b]).0,
        decreases n - i,
    {
        let mut m: usize = i;
        let mut k: usize = i + 1;
        while k < n
            invariant
                n == v@.len(),
                i <= m < k <= n,
                forall|t: int| i <= t < k ==> v@[m as int].0 <= (#[trigger] v@[t]).0,
            decreases n - k,
        {
            if v[k].0 < v[m].0 {
                m = k;
            }
            k = k + 1;
        }
        if m != i {
            let ghost pre = v@;
            let a = v[i];
            let b = v[m];
            v[i] = b;
            v[m] = a;
            proof {
                crate::heaps::lemma_swap_multiset(pre, i as int, m as int);
                assert(v@ =~= pre.update(i as int, pre[m as int]).update(m as int, pre[i as int]));
            }
        }
        i = i + 1;
    }
}

/// In a value-sorted run, the pair at index `k - 1` carries the `k`-th
/// smallest value, and the pair after it the `k + 1`-th.
proof fn lemma_sorted_kth(t: Seq<(u64, usize)>, k: int)
    requires
        sorted_pairs(t),
        1 <= k <= t.len(),
    ensures
        is_kth_smallest(t.to_multiset(), k, t[k - 1].0),
        k < t.len() ==> is_kth_smallest(t.to_multiset(), k + 1, t[k].0),
{
    broadcast use vstd::multiset::group_multiset_axioms;

    let lo = t.take(k);
    let hi = t.skip(k);
    assert(t =~= lo + hi);
    vstd::seq_lib::lemma_multiset_commutative(lo, hi);
    vstd::seq_lib::to_multiset_len(lo);
    assert forall|p: (u64, usize)| #[trigger] lo.to_multiset().count(p) > 0 implies p.0 <= t[k
        - 1].0 by {
        vstd::seq_lib::to_multiset_contains(lo, p);
        let i = choose|i: int| 0 <= i < lo.len() && lo[i] == p;
        assert(lo[i] == t[i]);
    }
    assert forall|q: (u64, usize)| #[trigger] hi.to_multiset().count(q) > 0 implies t[k - 1].0
        <= q.0 by {
        vstd::seq_lib::to_multiset_contains(hi, q);
        let i = choose|i: int| 0 <= i < hi.len() && hi[i] == q;
        assert(hi[i] == t[k + i]);
    }
    assert(lo.to_multiset().count(t[k - 1]) > 0) by {
        assert(lo[k - 1] == t[k - 1]);
        assert(lo.contains(t[k - 1]));
        vstd::seq_lib::to_multiset_contains(lo, t[k - 1]);
    }
    assert(exists|j: usize| #[trigger] lo.to_multiset().count((t[k - 1].0, j)) > 0) by {
        assert(lo.to_multiset().count((t[k - 1].0, t[k - 1].1)) > 0);
    }
    lemma_low_root_is_kth(lo.to_multiset(), hi.to_multiset(), t[k - 1].0);
    if k < t.len() {
        assert forall|p: (u64, usize)| #[trigger] lo.to_multiset().count(p) > 0 implies p.0
            <= t[k].0 by {
            vstd::seq_lib::to_multiset_contains(lo, p);
            let i = choose|i: int| 0 <= i < lo.len() && lo[i] == p;
            assert(lo[i] == t[i]);
        }
        assert(hi.to_multiset().count(t[k]) > 0) by {
            assert(hi[0] == t[k]);
            assert(hi.contains(t[k]));
            vstd::seq_lib::to_multiset_contains(hi, t[k]);
        }
        assert(exists|j: usize| #[trigger] hi.to_multiset().count((t[k].0, j)) > 0) by {
            assert(hi.to_multiset().count((t[k].0, t[k].1)) > 0);
        }
        assert forall|q: (u64, usize)| #[trigger] hi.to_multiset().count(q) > 0 implies t[k].0
            <= q.0 by {
            vstd::seq_lib::to_multiset_contains(hi, q);
            let i = choose|i: int| 0 <= i < hi.len() && hi[i] == q;
            assert(hi[i] == t[k + i]);
        }
        lemma_high_root_is_next(lo.to_multiset(), hi.to_multiset(), t[k].0);
    }
}

/// What an aggregate median owes every cell of a column: the median of
/// the whole column, missing only when the column has no valid cell.
pub open spec fn agg_median_ok(col: Seq<Option<u64>>, cell: MedianCell) -> bool {
    col.len() == 0 || median_ok(col, col.len() - 1, col.len() as int, 1, cell)
}

/// One column of the aggregate median: the column's non-missing values
/// are sorted and their middle broadcast over the column.
pub fn process_agg_median_column(input_col: &Vec<Option<u64>>) -> (out: Vec<MedianCell>)
    ensures
        out@.len() == input_col@.len(),
        forall|r: int| 0 <= r < out@.len() ==> agg_median_ok(input_col@, #[trigger] out@[r]),
{
    broadcast use vstd::seq_lib::group_to_multiset_ensures;

    let ghost col = input_col@;
    let num_rows = input_col.len();
    let mut vals = collect_pairs(input_col);
    sort_pairs(&mut vals);
    let n = vals.len();
    proof {
        crate::window::lemma_win_pairs_len(col, 0, num_rows as int);
        if num_rows > 0 {
            assert(win_start(num_rows - 1, num_rows as int) == 0);
        }
    }
    let cell = if n == 0 {
        MedianCell::Missing
    } else if n % 2 == 1 {
        let x = vals[n / 2];
        proof {
            lemma_sorted_kth(vals@, n as int / 2 + 1);
        }
        MedianCell::Single(x.0)
    } else {
        let a = vals[n / 2 - 1];
        let b = vals[n / 2];
        proof {
            lemma_sorted_kth(vals@, n as int / 2);
        }
        MedianCell::Pair(a.0, b.0)
    };
    let mut out: Vec<MedianCell> = Vec::new();
    let mut r: usize = 0;
    while r < num_rows
        invariant
            num_rows == input_col@.len(),
            r <= num_rows,
            out@.len() == r,
            agg_median_ok(input_col@, cell),
            forall|i: int| 0 <= i < r ==> #[trigger] out@[i] == cell,
        decreases num_rows - r,
    {
        out.push(cell);
        r = r + 1;
    }
    out
}

/// Relies on rayon: `par_iter().map(..).collect::<Vec<_>>()` returns one
/// result per column in column order, and the closure only runs the
/// verified sequential pass [`process_agg_median_column`] on its column.
#[verifier::external_body]
fn par_agg_median_columns(input: &Vec<Vec<Option<u64>>>) -> (out: Vec<Vec<MedianCell>>)
    ensures
        out@.len() == input@.len(),
        forall|c: int| 0 <= c < out@.len() ==> #[trigger] out@[c]@.len() == input@[c]@.len(),
        forall|c: int, r: int|
            0 <= c < out@.len() && 0 <= r < out@[c]@.len() ==> agg_median_ok(
                input@[c]@,
                #[trigger] out@[c]@[r],
            ),
{
    input.par_iter().map(|col| process_agg_median_column(col)).collect()
}

/// The aggregate median of a whole matrix: every cell of an output column
/// is the median of its input column, missing only on an all-missing
/// column.
pub fn agg_median(input: &Vec<Vec<Option<u64>>>, parallel: bool) -> (out: Vec<Vec<MedianCell>>)
    ensures
        out@.len() == input@.len(),
        forall|c: int| 0 <= c < out@.len() ==> #[trigger] out@[c]@.len() == input@[c]@.len(),
        forall|c: int, r: int|
            0 <= c < out@.len() && 0 <= r < out@[c]@.len() ==> agg_median_ok(
                input@[c]@,
                #[trigger] out@[c]@[r],
            ),
{
    if parallel {
        par_agg_median_columns(input)
    } else {
        let num_cols = input.len();
        let mut out: Vec<Vec<MedianCell>> = Vec::new();
        let mut c: usize = 0;
        while c < num_cols
            invariant
                num_cols == input@.len(),
                c <= num_cols,
                out@.len() == c,
                forall|k: int| 0 <= k < c ==> #[trigger] out@[k]@.len() == input@[k]@.len(),
                forall|k: int, r: int|
                    0 <= k < c && 0 <= r < out@[k]@.len() ==> agg_median_ok(
                        input@[k]@,
                        #[trigger] out@[k]@[r],
                    ),
            decreases num_cols - c,
        {
            let col_out = process_agg_median_column(&input[c]);
            out.push(col_out);
            c = c + 1;
        }
        out
    }
}

/// Two whole-column median passes agree cell by cell: the obligation pins
/// every cell, so the parallel and the sequential walks return the same
/// bits.
pub proof fn lemma_median_col_unique(
    col: Seq<Option<u64>>,
    length: int,
    min_length: int,
    o1: Seq<MedianCell>,
    o2: Seq<MedianCell>,
)
    requires
        median_col_ok(col, length, min_length, o1),
        median_col_ok(col, length, min_length, o2),
    ensures
        o1 == o2,
{
    assert forall|r: int| 0 <= r < o1.len() implies o1[r] == o2[r] by {
        lemma_median_unique(col, r, length, min_length, o1[r], o2[r]);
    }
    assert(o1 =~= o2);
}

/// Before the pass can have seen `min_length` observations, a median cell
/// is missing.
pub proof fn lemma_median_warmup_missing(
    col: Seq<Option<u64>>,
    r: int,
    length: int,
    min_length: int,
    cell: MedianCell,
)
    requires
        0 <= r < min_length - 1,
        1 <= length,
        median_ok(col, r, length, min_length, cell),
    ensures
        cell is Missing,
{
    crate::window::lemma_count_valid_bounds(col, win_start(r, length), r + 1);
}

} // verus!
