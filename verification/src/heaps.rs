//! Indexed binary heap: value/row pairs ordered by value, with a side
//! array mapping each row to its heap slot so that an arbitrary element can
//! be removed by row alone. The backbone of the sliding median.

use vstd::prelude::*;
use vstd::multiset::Multiset;

verus! {

/// Exchanging two slots of a sequence leaves its multiset of elements
/// unchanged.
pub proof fn lemma_swap_multiset(s: Seq<(u64, usize)>, i: int, k: int)
    requires
        0 <= i < s.len(),
        0 <= k < s.len(),
    ensures
        s.update(i, s[k]).update(k, s[i]).to_multiset() == s.to_multiset(),
{
    broadcast use vstd::multiset::group_multiset_axioms, vstd::seq_lib::group_to_multiset_ensures;

    if i == k {
        assert(s.update(i, s[k]).update(k, s[i]) =~= s);
    } else {
        let v = s[i];
        let u = s[k];
        let mid = s.update(i, u);
        assert(mid =~= s.remove(i).insert(i, u));
        assert(mid.to_multiset() =~= s.to_multiset().remove(v).insert(u));
        let fin = mid.update(k, v);
        assert(mid[k] == u);
        assert(fin =~= mid.remove(k).insert(k, v));
        assert(fin.to_multiset() =~= mid.to_multiset().remove(u).insert(v));
        assert(fin.to_multiset() =~= s.to_multiset());
    }
}

/// Max-heap or min-heap (per `is_max_heap`) of `(value, row)` pairs, plus
/// `positions[row] = Some(slot)` for each stored row.
pub struct Indexed {
    pub heap: Vec<(u64, usize)>,
    pub positions: Vec<Option<usize>>,
    pub is_max_heap: bool,
}

impl Indexed {
    /// `a` may sit at or above `b` in this heap's order.
    pub open spec fn above(&self, a: u64, b: u64) -> bool {
        if self.is_max_heap {
            a >= b
        } else {
            a <= b
        }
    }

    /// Rows and slots point at each other, one slot per row.
    pub open spec fn positions_ok(&self) -> bool {
        &&& forall|p: int|
            0 <= p < self.heap@.len() ==> (#[trigger] self.heap@[p]).1 < self.positions@.len()
                && self.positions@[self.heap@[p].1 as int] == Some(p as usize)
        &&& forall|j: int|
            0 <= j < self.positions@.len() && (#[trigger] self.positions@[j]) is Some ==> (
            self.positions@[j]->0 as int) < self.heap@.len()
                && self.heap@[self.positions@[j]->0 as int].1 == j
    }

    /// Every slot sorts at or below its parent slot.
    pub open spec fn heap_ordered(&self) -> bool {
        forall|p: int|
            1 <= p < self.heap@.len() ==> self.above(
                self.heap@[(p - 1) / 2].0,
                (#[trigger] self.heap@[p]).0,
            )
    }

    pub open spec fn wf(&self) -> bool {
        &&& self.positions_ok()
        &&& self.heap_ordered()
    }

    /// The stored pairs, without order.
    pub open spec fn contents(&self) -> Multiset<(u64, usize)> {
        self.heap@.to_multiset()
    }

    /// Whether row `j` is currently stored.
    pub open spec fn has_row(&self, j: int) -> bool {
        0 <= j < self.positions@.len() && self.positions@[j] is Some
    }

    /// The value stored for row `j` (meaningful only when `has_row(j)`).
    pub open spec fn row_val(&self, j: int) -> u64 {
        self.heap@[self.positions@[j]->0 as int].0
    }

    /// Everything `pop` and `push` leave alone.
    pub open spec fn same_shape(&self, other: &Indexed) -> bool {
        &&& self.positions@.len() == other.positions@.len()
        &&& self.is_max_heap == other.is_max_heap
    }

    /// The heap order holds everywhere except, possibly, on the edge from
    /// `pos` up to its parent; the children of `pos`, if any, are bounded
    /// by its parent directly.
    pub open spec fn wf_except_up(&self, pos: int) -> bool {
        &&& 0 <= pos < self.heap@.len()
        &&& self.positions_ok()
        &&& forall|p: int|
            1 <= p < self.heap@.len() && p != pos ==> self.above(
                self.heap@[(p - 1) / 2].0,
                (#[trigger] self.heap@[p]).0,
            )
        &&& pos > 0 ==> forall|c: int|
            1 <= c < self.heap@.len() && (c - 1) / 2 == pos ==> self.above(
                self.heap@[(pos - 1) / 2].0,
                (#[trigger] self.heap@[c]).0,
            )
    }

    /// The heap order holds everywhere except, possibly, on the edges from
    /// `pos` down to its children, which are still bounded by the parent
    /// of `pos`.
    pub open spec fn wf_except_down(&self, pos: int) -> bool {
        &&& 0 <= pos < self.heap@.len()
        &&& self.positions_ok()
        &&& forall|p: int|
            1 <= p < self.heap@.len() && (p - 1) / 2 != pos ==> self.above(
                self.heap@[(p - 1) / 2].0,
                (#[trigger] self.heap@[p]).0,
            )
        &&& pos > 0 ==> forall|c: int|
            1 <= c < self.heap@.len() && (c - 1) / 2 == pos ==> self.above(
                self.heap@[(pos - 1) / 2].0,
                (#[trigger] self.heap@[c]).0,
            )
    }

    /// In an ordered heap the root sorts at or above every slot.
    pub proof fn lemma_root_bound(&self, p: int)
        requires
            self.wf(),
            0 <= p < self.heap@.len(),
        ensures
            self.above(self.heap@[0].0, self.heap@[p].0),
        decreases p,
    {
        if p > 0 {
            self.lemma_root_bound((p - 1) / 2);
        }
    }

    /// A pair in the contents has its row marked present, bearing the
    /// value `row_val` reads off.
    #[verifier::rlimit(100)]
    pub proof fn lemma_contents_has_row(&self, v: u64, j: usize)
        requires
            self.wf(),
            self.contents().count((v, j)) > 0,
        ensures
            self.has_row(j as int),
            v == self.row_val(j as int),
    {
        vstd::seq_lib::to_multiset_contains(self.heap@, (v, j));
        vstd::std_specs::vec::axiom_spec_len(&self.heap);
        assert(self.heap@.contains((v, j)));
        let p = choose|p: int| 0 <= p < self.heap@.len() && self.heap@[p] == (v, j);
        assert(self.positions@[j as int] == Some(p as usize));
        assert(self.heap@[self.positions@[j as int]->0 as int] == (v, j));
    }

    /// A row marked present contributes its pair to the contents.
    pub proof fn lemma_has_row_contents(&self, j: int)
        requires
            self.wf(),
            self.has_row(j),
        ensures
            self.contents().count((self.row_val(j), j as usize)) > 0,
    {
        vstd::std_specs::vec::axiom_spec_len(&self.positions);
        let p = self.positions@[j]->0 as int;
        assert(self.heap@[p] == (self.row_val(j), j as usize));
        assert(self.heap@.contains((self.row_val(j), j as usize)));
        vstd::seq_lib::to_multiset_contains(self.heap@, (self.row_val(j), j as usize));
    }

    pub fn new(capacity: usize, max_idx: usize, is_max_heap: bool) -> (h: Indexed)
        ensures
            h.wf(),
            h.heap@.len() == 0,
            h.contents() =~= Multiset::<(u64, usize)>::empty(),
            h.positions@.len() == max_idx,
            h.is_max_heap == is_max_heap,
            forall|j: int| !h.has_row(j),
    {
        let h = Indexed {
            heap: Vec::with_capacity(capacity),
            positions: vec![None; max_idx],
            is_max_heap,
        };
        proof {
            broadcast use vstd::seq_lib::group_to_multiset_ensures;

            assert(h.heap@.to_multiset().len() == 0);
        }
        h
    }

    pub fn len(&self) -> (n: usize)
        ensures
            n == self.heap@.len(),
            n == self.contents().len(),
    {
        proof {
            broadcast use vstd::seq_lib::group_to_multiset_ensures;

            assert(self.heap@.to_multiset().len() == self.heap@.len());
        }
        self.heap.len()
    }

    pub fn is_empty(&self) -> (e: bool)
        ensures
            e <==> self.heap@.len() == 0,
            e <==> self.contents().len() == 0,
    {
        proof {
            broadcast use vstd::seq_lib::group_to_multiset_ensures;

            assert(self.heap@.to_multiset().len() == self.heap@.len());
        }
        self.heap.len() == 0
    }

    /// Whether `a` sorts strictly before `b` here: above it in a max-heap,
    /// at or below it in a min-heap, exactly as the sift steps test it.
    pub fn compare(&self, a: u64, b: u64) -> (r: bool)
        ensures
            r == ((a > b) == self.is_max_heap),
    {
        let result: bool = a > b;
        result == self.is_max_heap
    }

    /// The root pair: it sorts at or above everything stored.
    pub fn peek(&self) -> (r: Option<(u64, usize)>)
        requires
            self.wf(),
        ensures
            self.heap@.len() == 0 ==> r is None,
            self.heap@.len() > 0 ==> r == Some(self.heap@[0]),
            r matches Some(root) ==> forall|q: (u64, usize)|
                #[trigger] self.contents().count(q) > 0 ==> self.above(root.0, q.0),
    {
        proof {
            broadcast use vstd::seq_lib::group_to_multiset_ensures;

            if self.heap@.len() > 0 {
                assert forall|q: (u64, usize)| #[trigger] self.contents().count(q) > 0 implies self
                    .above(self.heap@[0].0, q.0) by {
                    assert(self.heap@.contains(q));
                    let p = choose|p: int| 0 <= p < self.heap@.len() && self.heap@[p] == q;
                    self.lemma_root_bound(p);
                }
            }
        }
        if self.heap.len() == 0 {
            None
        } else {
            Some(self.heap[0])
        }
    }

    pub fn push(&mut self, value: u64, idx: usize)
        requires
            old(self).wf(),
            idx < old(self).positions@.len(),
            !old(self).has_row(idx as int),
        ensures
            final(self).wf(),
            final(self).same_shape(old(self)),
            final(self).heap@.len() == old(self).heap@.len() + 1,
            final(self).contents() == old(self).contents().insert((value, idx)),
            forall|j: int|
                final(self).has_row(j) <==> (old(self).has_row(j) || j == idx as int),
    {
        let pos = self.heap.len();
        self.heap.push((value, idx));
        self.positions[idx] = Some(pos);
        proof {
            broadcast use vstd::seq_lib::group_to_multiset_ensures;

            assert(self.heap@.to_multiset() =~= old(self).heap@.to_multiset().insert(
                (value, idx),
            ));
            assert forall|p: int|
                1 <= p < self.heap@.len() && p != pos as int implies self.above(
                self.heap@[(p - 1) / 2].0,
                (#[trigger] self.heap@[p]).0,
            ) by {
                assert(self.heap@[p] == old(self).heap@[p]);
                assert(self.heap@[(p - 1) / 2] == old(self).heap@[(p - 1) / 2]);
            }
            assert(self.positions_ok()) by {
                assert forall|p: int|
                    0 <= p < self.heap@.len() implies (#[trigger] self.heap@[p]).1
                    < self.positions@.len() && self.positions@[self.heap@[p].1 as int] == Some(
                    p as usize,
                ) by {
                    if p < pos as int {
                        assert(self.heap@[p] == old(self).heap@[p]);
                        assert(old(self).positions@[old(self).heap@[p].1 as int] == Some(
                            p as usize,
                        ));
                        assert(old(self).heap@[p].1 != idx);
                    } else {
                        assert(self.heap@[p] == (value, idx));
                    }
                }
                assert forall|j: int|
                    0 <= j < self.positions@.len() && (#[trigger] self.positions@[j]) is Some
                    implies (self.positions@[j]->0 as int) < self.heap@.len()
                    && self.heap@[self.positions@[j]->0 as int].1 == j by {
                    if j == idx as int {
                        assert(self.heap@[pos as int] == (value, idx));
                    } else {
                        assert(self.positions@[j] == old(self).positions@[j]);
                        assert(self.heap@[old(self).positions@[j]->0 as int] == old(
                            self,
                        ).heap@[old(self).positions@[j]->0 as int]);
                    }
                }
            }
            assert(self.wf_except_up(pos as int));
        }
        self.sift_up(pos);
    }

    fn sift_up(&mut self, pos: usize)
        requires
            old(self).wf_except_up(pos as int),
        ensures
            final(self).wf(),
            final(self).same_shape(old(self)),
            final(self).heap@.len() == old(self).heap@.len(),
            final(self).contents() == old(self).contents(),
            forall|j: int| final(self).has_row(j) <==> old(self).has_row(j),
    {
        let mut pos = pos;
        while pos > 0
            invariant
                self.wf_except_up(pos as int),
                self.same_shape(old(self)),
                self.heap@.len() == old(self).heap@.len(),
                self.contents() == old(self).contents(),
                forall|j: int| self.has_row(j) <==> old(self).has_row(j),
            decreases pos,
        {
            let parent = (pos - 1) / 2;
            let a = self.heap[pos];
            let b = self.heap[parent];
            if !self.compare(a.0, b.0) {
                proof {
                    assert(self.above(self.heap@[(pos - 1) / 2].0, self.heap@[pos as int].0));
                    assert(self.wf());
                }
                return ;
            }
            let ghost prev = *self;
            proof {
                vstd::std_specs::vec::axiom_spec_len(&self.heap);
            }
            self.heap[pos] = b;
            self.heap[parent] = a;
            self.positions[b.1] = Some(pos);
            self.positions[a.1] = Some(parent);
            proof {
                self.lemma_after_up_swap(&prev, pos as int, parent as int);
            }
            pos = parent;
        }
        proof {
            assert(self.wf_except_up(0));
            assert(self.wf());
        }
    }

    /// After a swap of slots `pos` and `parent`, rows and slots still
    /// point at each other, and the same rows are stored.
    proof fn lemma_swap_positions(&self, prev: &Indexed, pos: int, parent: int)
        requires
            prev.positions_ok(),
            prev.heap@.len() <= usize::MAX,
            0 <= parent < pos < prev.heap@.len(),
            self.heap@ == prev.heap@.update(pos, prev.heap@[parent]).update(
                parent,
                prev.heap@[pos],
            ),
            self.positions@ == prev.positions@.update(
                prev.heap@[parent].1 as int,
                Some(pos as usize),
            ).update(prev.heap@[pos].1 as int, Some(parent as usize)),
        ensures
            self.positions_ok(),
            forall|j: int| self.has_row(j) <==> prev.has_row(j),
            self.heap@.len() == prev.heap@.len(),
    {
        let v = prev.heap@[pos];
        let u = prev.heap@[parent];
        let n = self.heap@.len();
        assert(prev.positions@[v.1 as int] == Some(pos as usize));
        assert(prev.positions@[u.1 as int] == Some(parent as usize));
        assert(v.1 != u.1);
        assert(self.heap@[pos] == u && self.heap@[parent] == v);
        assert forall|p: int|
            0 <= p < n implies (#[trigger] self.heap@[p]).1 < self.positions@.len()
            && self.positions@[self.heap@[p].1 as int] == Some(p as usize) by {
            if p != pos && p != parent {
                assert(self.heap@[p] == prev.heap@[p]);
                assert(prev.positions@[prev.heap@[p].1 as int] == Some(p as usize));
                assert(prev.heap@[p].1 != v.1 && prev.heap@[p].1 != u.1);
            }
        }
        assert forall|j: int|
            0 <= j < self.positions@.len() && (#[trigger] self.positions@[j]) is Some implies (
        self.positions@[j]->0 as int) < n && self.heap@[self.positions@[j]->0 as int].1 == j by {
            if j != v.1 as int && j != u.1 as int {
                assert(self.positions@[j] == prev.positions@[j]);
                let q = prev.positions@[j]->0 as int;
                assert(prev.heap@[q].1 == j);
                assert(q != pos && q != parent);
                assert(self.heap@[q] == prev.heap@[q]);
            }
        }
    }

    /// After swapping a child that sorts no worse into its parent's slot,
    /// the heap order holds except on the edge above that parent slot.
    proof fn lemma_up_swap_order(&self, prev: &Indexed, pos: int, parent: int)
        requires
            prev.wf_except_up(pos),
            prev.heap@.len() <= usize::MAX,
            pos > 0,
            parent == (pos - 1) / 2,
            prev.above(prev.heap@[pos].0, prev.heap@[parent].0),
            self.heap@ == prev.heap@.update(pos, prev.heap@[parent]).update(
                parent,
                prev.heap@[pos],
            ),
            self.is_max_heap == prev.is_max_heap,
        ensures
            forall|p: int|
                1 <= p < self.heap@.len() && p != parent ==> self.above(
                    self.heap@[(p - 1) / 2].0,
                    (#[trigger] self.heap@[p]).0,
                ),
            parent > 0 ==> forall|c: int|
                1 <= c < self.heap@.len() && (c - 1) / 2 == parent ==> self.above(
                    self.heap@[(parent - 1) / 2].0,
                    (#[trigger] self.heap@[c]).0,
                ),
    {
        let v = prev.heap@[pos];
        let u = prev.heap@[parent];
        let n = self.heap@.len();
        assert(self.heap@[pos] == u && self.heap@[parent] == v);
        assert forall|p: int|
            1 <= p < n && p != parent implies self.above(
            self.heap@[(p - 1) / 2].0,
            (#[trigger] self.heap@[p]).0,
        ) by {
            let q = (p - 1) / 2;
            if p == pos {
                assert(self.heap@[q] == v);
            } else if q == pos {
                assert(self.heap@[p] == prev.heap@[p]);
                assert(prev.above(prev.heap@[(pos - 1) / 2].0, prev.heap@[p].0));
            } else if q == parent {
                assert(self.heap@[p] == prev.heap@[p]);
                assert(prev.above(u.0, prev.heap@[p].0));
                assert(self.above(v.0, u.0));
            } else {
                assert(self.heap@[p] == prev.heap@[p]);
                assert(self.heap@[q] == prev.heap@[q]);
            }
        }
        if parent > 0 {
            let g = (parent - 1) / 2;
            assert forall|c: int|
                1 <= c < n && (c - 1) / 2 == parent implies self.above(
                self.heap@[g].0,
                (#[trigger] self.heap@[c]).0,
            ) by {
                assert(g != pos && g != parent);
                assert(self.heap@[g] == prev.heap@[g]);
                assert(prev.above(prev.heap@[g].0, u.0));
                if c == pos {
                    assert(self.heap@[c] == u);
                } else {
                    assert(self.heap@[c] == prev.heap@[c]);
                    assert(prev.above(u.0, prev.heap@[c].0));
                }
            }
        }
    }

    /// After swapping the best child up into `pos`, the heap order holds
    /// except on the edges below that child's old slot.
    proof fn lemma_down_swap_order(&self, prev: &Indexed, pos: int, target: int)
        requires
            prev.wf_except_down(pos),
            prev.heap@.len() <= usize::MAX,
            2 * pos + 1 <= target <= 2 * pos + 2,
            target < prev.heap@.len(),
            prev.above(prev.heap@[target].0, prev.heap@[pos].0),
            forall|c: int|
                1 <= c < prev.heap@.len() && (c - 1) / 2 == pos ==> prev.above(
                    prev.heap@[target].0,
                    (#[trigger] prev.heap@[c]).0,
                ),
            self.heap@ == prev.heap@.update(pos, prev.heap@[target]).update(
                target,
                prev.heap@[pos],
            ),
            self.is_max_heap == prev.is_max_heap,
        ensures
            forall|p: int|
                1 <= p < self.heap@.len() && (p - 1) / 2 != target ==> self.above(
                    self.heap@[(p - 1) / 2].0,
                    (#[trigger] self.heap@[p]).0,
                ),
            forall|c: int|
                1 <= c < self.heap@.len() && (c - 1) / 2 == target ==> self.above(
                    self.heap@[(target - 1) / 2].0,
                    (#[trigger] self.heap@[c]).0,
                ),
    {
        let v = prev.heap@[pos];
        let t = prev.heap@[target];
        let n = self.heap@.len();
        assert((target - 1) / 2 == pos);
        assert(self.heap@[pos] == t && self.heap@[target] == v);
        assert forall|p: int|
            1 <= p < n && (p - 1) / 2 != target implies self.above(
            self.heap@[(p - 1) / 2].0,
            (#[trigger] self.heap@[p]).0,
        ) by {
            let q = (p - 1) / 2;
            if p == target {
                assert(self.heap@[q] == t);
            } else if q == pos {
                assert(self.heap@[p] == prev.heap@[p]);
                assert(prev.above(t.0, prev.heap@[p].0));
            } else if p == pos {
                assert(self.heap@[p] == t);
                assert(q != pos && q != target);
                assert(self.heap@[q] == prev.heap@[q]);
                assert(pos > 0 ==> prev.above(prev.heap@[(pos - 1) / 2].0, t.0));
            } else if q == target {
                assert((p - 1) / 2 == target);
            } else {
                assert(self.heap@[p] == prev.heap@[p]);
                assert(self.heap@[q] == prev.heap@[q]);
            }
        }
        assert forall|c: int|
            1 <= c < n && (c - 1) / 2 == target implies self.above(
            self.heap@[(target - 1) / 2].0,
            (#[trigger] self.heap@[c]).0,
        ) by {
            assert(c != pos && c != target);
            assert(self.heap@[c] == prev.heap@[c]);
            assert(prev.above(t.0, prev.heap@[c].0));
            assert(self.heap@[(target - 1) / 2] == t);
        }
    }

    fn sift_down(&mut self, pos: usize)
        requires
            old(self).wf_except_down(pos as int),
        ensures
            final(self).wf(),
            final(self).same_shape(old(self)),
            final(self).heap@.len() == old(self).heap@.len(),
            final(self).contents() == old(self).contents(),
            forall|j: int| final(self).has_row(j) <==> old(self).has_row(j),
    {
        let mut pos = pos;
        loop
            invariant
                self.wf_except_down(pos as int),
                self.same_shape(old(self)),
                self.heap@.len() == old(self).heap@.len(),
                self.contents() == old(self).contents(),
                forall|j: int| self.has_row(j) <==> old(self).has_row(j),
            ensures
                self.wf(),
                self.same_shape(old(self)),
                self.heap@.len() == old(self).heap@.len(),
                self.contents() == old(self).contents(),
                forall|j: int| self.has_row(j) <==> old(self).has_row(j),
            decreases self.heap@.len() - pos,
        {
            let len = self.heap.len();
            if pos >= len / 2 {
                proof {
                    assert forall|p: int|
                        1 <= p < self.heap@.len() implies self.above(
                        self.heap@[(p - 1) / 2].0,
                        (#[trigger] self.heap@[p]).0,
                    ) by {
                        assert((p - 1) / 2 != pos as int);
                    }
                }
                break ;
            }
            let left = 2 * pos + 1;
            let right = left + 1;
            let target = if right < len && self.compare(self.heap[right].0, self.heap[left].0) {
                right
            } else {
                left
            };
            let a = self.heap[pos];
            let t = self.heap[target];
            proof {
                assert forall|c: int|
                    1 <= c < self.heap@.len() && (c - 1) / 2 == pos as int implies self.above(
                    self.heap@[target as int].0,
                    (#[trigger] self.heap@[c]).0,
                ) by {
                    assert(c == left as int || c == right as int);
                }
            }
            if !self.compare(t.0, a.0) {
                proof {
                    assert forall|p: int|
                        1 <= p < self.heap@.len() implies self.above(
                        self.heap@[(p - 1) / 2].0,
                        (#[trigger] self.heap@[p]).0,
                    ) by {
                        if (p - 1) / 2 == pos as int {
                            assert(self.above(self.heap@[target as int].0, self.heap@[p].0));
                            assert(self.above(self.heap@[pos as int].0, self.heap@[target as int].0));
                        }
                    }
                }
                break ;
            }
            let ghost prev = *self;
            proof {
                vstd::std_specs::vec::axiom_spec_len(&self.heap);
            }
            self.heap[pos] = t;
            self.heap[target] = a;
            self.positions[t.1] = Some(pos);
            self.positions[a.1] = Some(target);
            proof {
                assert(prev.positions@[prev.heap@[pos as int].1 as int] == Some(pos));
                assert(prev.positions@[prev.heap@[target as int].1 as int] == Some(target));
                assert(self.positions@ =~= prev.positions@.update(
                    prev.heap@[pos as int].1 as int,
                    Some(target),
                ).update(prev.heap@[target as int].1 as int, Some(pos)));
                assert(self.heap@ =~= prev.heap@.update(target as int, prev.heap@[pos as int])
                    .update(pos as int, prev.heap@[target as int]));
                self.lemma_swap_positions(&prev, target as int, pos as int);
                self.lemma_down_swap_order(&prev, pos as int, target as int);
                lemma_swap_multiset(prev.heap@, pos as int, target as int);
                assert(prev.heap@.update(pos as int, prev.heap@[target as int]).update(
                    target as int,
                    prev.heap@[pos as int],
                ) =~= self.heap@);
            }
            pos = target;
        }
    }

    /// Extract the root pair: the one that sorts at or above everything
    /// stored.
    pub fn pop(&mut self) -> (r: Option<(u64, usize)>)
        requires
            old(self).wf(),
        ensures
            final(self).wf(),
            final(self).same_shape(old(self)),
            old(self).heap@.len() == 0 ==> r is None && *final(self) == *old(self),
            old(self).heap@.len() > 0 ==> {
                &&& r == Some(old(self).heap@[0])
                &&& final(self).heap@.len() == old(self).heap@.len() - 1
                &&& final(self).contents() == old(self).contents().remove(old(self).heap@[0])
                &&& forall|q: (u64, usize)|
                    #[trigger] old(self).contents().count(q) > 0 ==> old(self).above(
                        old(self).heap@[0].0,
                        q.0,
                    )
                &&& forall|j: int|
                    final(self).has_row(j) <==> (old(self).has_row(j) && j != old(
                        self,
                    ).heap@[0].1 as int)
            },
    {
        broadcast use vstd::multiset::group_multiset_axioms, vstd::seq_lib::group_to_multiset_ensures;

        let n = self.heap.len();
        if n == 0 {
            return None;
        }
        proof {
            assert forall|q: (u64, usize)| #[trigger] self.contents().count(q) > 0 implies self
                .above(self.heap@[0].0, q.0) by {
                assert(self.heap@.contains(q));
                let p = choose|p: int| 0 <= p < self.heap@.len() && self.heap@[p] == q;
                self.lemma_root_bound(p);
            }
        }
        let result = self.heap[0];
        self.positions[result.1] = None;
        let last_opt = self.heap.pop();
        let last = last_opt.unwrap();
        proof {
            assert(last == old(self).heap@[n - 1]);
            assert(self.heap@ == old(self).heap@.drop_last()) by {
                assert(self.heap@ =~= old(self).heap@.subrange(0, n - 1));
            }
        }
        if n == 1 {
            proof {
                assert(result == last);
                assert(old(self).heap@ =~= Seq::<(u64, usize)>::empty().push(result));
                assert(self.contents() =~= old(self).contents().remove(result));
                assert forall|j: int|
                    0 <= j < self.positions@.len() implies !((
                #[trigger] self.positions@[j]) is Some) by {
                    if j != result.1 as int {
                        if old(self).positions@[j] is Some {
                            assert(old(self).heap@[old(self).positions@[j]->0 as int].1 == j);
                        }
                    }
                }
            }
            return Some(result);
        }
        let ghost prev = *self;
        self.heap[0] = last;
        self.positions[last.1] = Some(0);
        proof {
            self.lemma_pop_mid(&old(self), result, last, n as int);
            assert(self.wf_except_down(0));
        }
        self.sift_down(0);
        Some(result)
    }

    /// The state between dropping the root and sifting the moved last pair
    /// down: positions are consistent, the order is intact below the root,
    /// and the contents have lost exactly the old root.
    proof fn lemma_pop_mid(&self, prev: &Indexed, result: (u64, usize), last: (u64, usize), n: int)
        requires
            prev.wf(),
            n == prev.heap@.len(),
            n >= 2,
            n <= usize::MAX,
            result == prev.heap@[0],
            last == prev.heap@[n - 1],
            self.heap@ == prev.heap@.drop_last().update(0, last),
            self.positions@ == prev.positions@.update(result.1 as int, None).update(
                last.1 as int,
                Some(0usize),
            ),
            self.is_max_heap == prev.is_max_heap,
        ensures
            self.wf_except_down(0),
            self.contents() == prev.contents().remove(result),
            forall|j: int| self.has_row(j) <==> (prev.has_row(j) && j != result.1 as int),
            self.heap@.len() == prev.heap@.len() - 1,
    {
        broadcast use vstd::multiset::group_multiset_axioms, vstd::seq_lib::group_to_multiset_ensures;

        assert(prev.positions@[result.1 as int] == Some(0usize));
        assert(prev.positions@[last.1 as int] == Some((n - 1) as usize));
        assert(result.1 != last.1);
        assert(self.heap@.len() == n - 1);
        assert(self.heap@[0] == last);
        assert forall|p: int|
            0 <= p < n - 1 implies (#[trigger] self.heap@[p]).1 < self.positions@.len()
            && self.positions@[self.heap@[p].1 as int] == Some(p as usize) by {
            if p > 0 {
                assert(self.heap@[p] == prev.heap@[p]);
                assert(prev.positions@[prev.heap@[p].1 as int] == Some(p as usize));
                assert(prev.heap@[p].1 != result.1 && prev.heap@[p].1 != last.1);
            }
        }
        assert forall|j: int|
            0 <= j < self.positions@.len() && (#[trigger] self.positions@[j]) is Some implies (
        self.positions@[j]->0 as int) < n - 1 && self.heap@[self.positions@[j]->0 as int].1
            == j by {
            if j != result.1 as int && j != last.1 as int {
                assert(self.positions@[j] == prev.positions@[j]);
                let q = prev.positions@[j]->0 as int;
                assert(prev.heap@[q].1 == j);
                assert(q != 0 && q != n - 1);
                assert(self.heap@[q] == prev.heap@[q]);
            }
        }
        assert forall|p: int|
            1 <= p < n - 1 && (p - 1) / 2 != 0 implies self.above(
            self.heap@[(p - 1) / 2].0,
            (#[trigger] self.heap@[p]).0,
        ) by {
            assert(self.heap@[p] == prev.heap@[p]);
            assert(self.heap@[(p - 1) / 2] == prev.heap@[(p - 1) / 2]);
        }
        assert(self.contents() =~= prev.contents().remove(result)) by {
            let m = prev.heap@.update(0, last);
            assert(m =~= prev.heap@.remove(0).insert(0, last));
            assert(m.to_multiset() =~= prev.heap@.to_multiset().remove(result).insert(last));
            assert(m.drop_last() =~= self.heap@);
            assert(m[m.len() - 1] == last);
            assert(m.remove(m.len() - 1) =~= m.drop_last());
            assert(self.heap@.to_multiset() =~= m.to_multiset().remove(last));
        }
    }

    /// Drop the pair stored for row `idx`, wherever it sits in the heap;
    /// reports whether the row was stored at all.
    pub fn remove(&mut self, idx: usize) -> (r: bool)
        requires
            old(self).wf(),
            idx < old(self).positions@.len(),
        ensures
            final(self).wf(),
            final(self).same_shape(old(self)),
            r == old(self).has_row(idx as int),
            !r ==> *final(self) == *old(self),
            r ==> {
                &&& final(self).heap@.len() == old(self).heap@.len() - 1
                &&& old(self).contents().count((old(self).row_val(idx as int), idx)) > 0
                &&& final(self).contents() == old(self).contents().remove(
                    (old(self).row_val(idx as int), idx),
                )
                &&& forall|j: int|
                    final(self).has_row(j) <==> (old(self).has_row(j) && j != idx as int)
            },
    {
        broadcast use vstd::multiset::group_multiset_axioms, vstd::seq_lib::group_to_multiset_ensures;

        let slot = self.positions[idx];
        match slot {
            None => false,
            Some(pos) => {
                proof {
                    assert(self.heap@[pos as int].1 == idx);
                    assert(self.heap@[pos as int] == (self.row_val(idx as int), idx));
                    assert(self.heap@.to_multiset().count((self.row_val(idx as int), idx)) > 0)
                        by {
                        assert(self.heap@.contains((self.row_val(idx as int), idx)));
                    }
                }
                let n = self.heap.len();
                self.positions[idx] = None;
                if pos == n - 1 {
                    let ghost before = self.heap@;
                    self.heap.pop();
                    proof {
                        self.lemma_remove_last(&old(self), idx, pos as int, n as int);
                    }
                } else {
                    let last_opt = self.heap.pop();
                    let last = last_opt.unwrap();
                    self.heap[pos] = last;
                    self.positions[last.1] = Some(pos);
                    proof {
                        assert(self.heap@ =~= old(self).heap@.drop_last().update(
                            pos as int,
                            last,
                        ));
                        self.lemma_remove_mid(&old(self), idx, pos as int, n as int, last);
                    }
                    if pos > 0 {
                        let parent = (pos - 1) / 2;
                        if self.compare(self.heap[pos].0, self.heap[parent].0) {
                            proof {
                                self.lemma_remove_sift_up_pre(
                                    &old(self),
                                    idx,
                                    pos as int,
                                    n as int,
                                    last,
                                );
                            }
                            self.sift_up(pos);
                        } else {
                            proof {
                                self.lemma_remove_sift_down_pre(
                                    &old(self),
                                    idx,
                                    pos as int,
                                    n as int,
                                    last,
                                );
                            }
                            self.sift_down(pos);
                        }
                    } else {
                        proof {
                            self.lemma_remove_sift_down_pre(
                                &old(self),
                                idx,
                                pos as int,
                                n as int,
                                last,
                            );
                        }
                        self.sift_down(pos);
                    }
                }
                true
            },
        }
    }

    /// Dropping the final slot of the heap needs no sift: positions stay
    /// consistent and the order is untouched.
    proof fn lemma_remove_last(&self, prev: &Indexed, idx: usize, pos: int, n: int)
        requires
            prev.wf(),
            n == prev.heap@.len(),
            1 <= n <= usize::MAX,
            pos == n - 1,
            idx < prev.positions@.len(),
            prev.positions@[idx as int] == Some(pos as usize),
            self.heap@ == prev.heap@.drop_last(),
            self.positions@ == prev.positions@.update(idx as int, None),
            self.is_max_heap == prev.is_max_heap,
        ensures
            self.wf(),
            self.contents() == prev.contents().remove((prev.row_val(idx as int), idx)),
            forall|j: int| self.has_row(j) <==> (prev.has_row(j) && j != idx as int),
            self.heap@.len() == prev.heap@.len() - 1,
    {
        broadcast use vstd::multiset::group_multiset_axioms, vstd::seq_lib::group_to_multiset_ensures;

        assert(prev.heap@[pos].1 == idx);
        assert(prev.heap@[pos] == (prev.row_val(idx as int), idx));
        assert forall|p: int|
            0 <= p < n - 1 implies (#[trigger] self.heap@[p]).1 < self.positions@.len()
            && self.positions@[self.heap@[p].1 as int] == Some(p as usize) by {
            assert(self.heap@[p] == prev.heap@[p]);
            assert(prev.positions@[prev.heap@[p].1 as int] == Some(p as usize));
            assert(prev.heap@[p].1 != idx);
        }
        assert forall|j: int|
            0 <= j < self.positions@.len() && (#[trigger] self.positions@[j]) is Some implies (
        self.positions@[j]->0 as int) < n - 1 && self.heap@[self.positions@[j]->0 as int].1
            == j by {
            assert(self.positions@[j] == prev.positions@[j]);
            let q = prev.positions@[j]->0 as int;
            assert(prev.heap@[q].1 == j);
            assert(q != pos);
            assert(self.heap@[q] == prev.heap@[q]);
        }
        assert(self.contents() =~= prev.contents().remove(prev.heap@[pos])) by {
            assert(prev.heap@.remove(n - 1) =~= prev.heap@.drop_last());
        }
    }

    /// The state between moving the heap's last pair into the vacated slot
    /// and sifting it: positions are consistent, the order is intact except
    /// around that slot, and the contents have lost exactly the removed
    /// pair.
    #[verifier::rlimit(100)]
    proof fn lemma_remove_mid(&self, prev: &Indexed, idx: usize, pos: int, n: int, last: (
        u64,
        usize,
    ))
        requires
            prev.wf(),
            n == prev.heap@.len(),
            2 <= n <= usize::MAX,
            0 <= pos < n - 1,
            idx < prev.positions@.len(),
            prev.positions@[idx as int] == Some(pos as usize),
            last == prev.heap@[n - 1],
            self.heap@ == prev.heap@.drop_last().update(pos, last),
            self.positions@ == prev.positions@.update(idx as int, None).update(
                last.1 as int,
                Some(pos as usize),
            ),
            self.is_max_heap == prev.is_max_heap,
        ensures
            self.positions_ok(),
            self.contents() == prev.contents().remove((prev.row_val(idx as int), idx)),
            forall|j: int| self.has_row(j) <==> (prev.has_row(j) && j != idx as int),
            self.heap@.len() == prev.heap@.len() - 1,
            self.heap@[pos] == prev.heap@[n - 1],
            forall|p: int|
                1 <= p < self.heap@.len() && p != pos && (p - 1) / 2 != pos ==> self.above(
                    self.heap@[(p - 1) / 2].0,
                    (#[trigger] self.heap@[p]).0,
                ),
            pos > 0 ==> self.above(self.heap@[(pos - 1) / 2].0, prev.heap@[pos].0),
            forall|c: int|
                1 <= c < self.heap@.len() && (c - 1) / 2 == pos ==> self.above(
                    prev.heap@[pos].0,
                    (#[trigger] self.heap@[c]).0,
                ),
    {
        broadcast use vstd::multiset::group_multiset_axioms, vstd::seq_lib::group_to_multiset_ensures;

        let removed = prev.heap@[pos];
        assert(removed.1 == idx);
        assert(removed == (prev.row_val(idx as int), idx));
        assert(prev.positions@[last.1 as int] == Some((n - 1) as usize));
        assert(last.1 != idx);
        assert(self.heap@.len() == n - 1);
        assert(self.heap@[pos] == last);
        assert forall|p: int|
            0 <= p < n - 1 implies (#[trigger] self.heap@[p]).1 < self.positions@.len()
            && self.positions@[self.heap@[p].1 as int] == Some(p as usize) by {
            if p != pos {
                assert(self.heap@[p] == prev.heap@[p]);
                assert(prev.positions@[prev.heap@[p].1 as int] == Some(p as usize));
                assert(prev.heap@[p].1 != idx && prev.heap@[p].1 != last.1);
            }
        }
        assert forall|j: int|
            0 <= j < self.positions@.len() && (#[trigger] self.positions@[j]) is Some implies (
        self.positions@[j]->0 as int) < n - 1 && self.heap@[self.positions@[j]->0 as int].1
            == j by {
            if j != idx as int && j != last.1 as int {
                assert(self.positions@[j] == prev.positions@[j]);
                let q = prev.positions@[j]->0 as int;
                assert(prev.heap@[q].1 == j);
                assert(q != pos && q != n - 1);
                assert(self.heap@[q] == prev.heap@[q]);
            }
        }
        assert forall|p: int|
            1 <= p < n - 1 && p != pos && (p - 1) / 2 != pos implies self.above(
            self.heap@[(p - 1) / 2].0,
            (#[trigger] self.heap@[p]).0,
        ) by {
            assert(self.heap@[p] == prev.heap@[p]);
            assert(self.heap@[(p - 1) / 2] == prev.heap@[(p - 1) / 2]);
        }
        if pos > 0 {
            assert(prev.above(prev.heap@[(pos - 1) / 2].0, removed.0));
            assert(self.heap@[(pos - 1) / 2] == prev.heap@[(pos - 1) / 2]);
        }
        assert forall|c: int|
            1 <= c < n - 1 && (c - 1) / 2 == pos implies self.above(
            removed.0,
            (#[trigger] self.heap@[c]).0,
        ) by {
            assert(c != pos);
            assert(self.heap@[c] == prev.heap@[c]);
            assert(prev.above(removed.0, prev.heap@[c].0));
        }
        assert(self.contents() =~= prev.contents().remove(removed)) by {
            let m = prev.heap@.update(pos, last);
            assert(m =~= prev.heap@.remove(pos).insert(pos, last));
            assert(m.to_multiset() =~= prev.heap@.to_multiset().remove(removed).insert(last));
            assert(m.drop_last() =~= self.heap@);
            assert(m[m.len() - 1] == last);
            assert(m.remove(m.len() - 1) =~= m.drop_last());
            assert(self.heap@.to_multiset() =~= m.to_multiset().remove(last));
        }
    }

    /// When the moved pair sorts strictly before the parent of its new
    /// slot, the order is broken at most on that upward edge.
    proof fn lemma_remove_sift_up_pre(
        &self,
        prev: &Indexed,
        idx: usize,
        pos: int,
        n: int,
        last: (u64, usize),
    )
        requires
            prev.wf(),
            n == prev.heap@.len(),
            2 <= n <= usize::MAX,
            0 < pos < n - 1,
            idx < prev.positions@.len(),
            prev.positions@[idx as int] == Some(pos as usize),
            last == prev.heap@[n - 1],
            self.heap@ == prev.heap@.drop_last().update(pos, last),
            self.positions@ == prev.positions@.update(idx as int, None).update(
                last.1 as int,
                Some(pos as usize),
            ),
            self.is_max_heap == prev.is_max_heap,
            self.above(self.heap@[pos].0, self.heap@[(pos - 1) / 2].0),
        ensures
            self.wf_except_up(pos),
    {
        self.lemma_remove_mid(prev, idx, pos, n, last);
        let removed = prev.heap@[pos];
        assert(self.above(self.heap@[(pos - 1) / 2].0, removed.0));
        assert forall|p: int|
            1 <= p < self.heap@.len() && p != pos implies self.above(
            self.heap@[(p - 1) / 2].0,
            (#[trigger] self.heap@[p]).0,
        ) by {
            if (p - 1) / 2 == pos {
                assert(self.above(removed.0, self.heap@[p].0));
                assert(self.above(self.heap@[pos].0, self.heap@[(pos - 1) / 2].0));
            }
        }
        assert forall|c: int|
            1 <= c < self.heap@.len() && (c - 1) / 2 == pos implies self.above(
            self.heap@[(pos - 1) / 2].0,
            (#[trigger] self.heap@[c]).0,
        ) by {
            assert(self.above(removed.0, self.heap@[c].0));
        }
    }

    /// When the moved pair does not sort before the parent of its new
    /// slot, the order is broken at most on the edges below that slot.
    proof fn lemma_remove_sift_down_pre(
        &self,
        prev: &Indexed,
        idx: usize,
        pos: int,
        n: int,
        last: (u64, usize),
    )
        requires
            prev.wf(),
            n == prev.heap@.len(),
            2 <= n <= usize::MAX,
            0 <= pos < n - 1,
            idx < prev.positions@.len(),
            prev.positions@[idx as int] == Some(pos as usize),
            last == prev.heap@[n - 1],
            self.heap@ == prev.heap@.drop_last().update(pos, last),
            self.positions@ == prev.positions@.update(idx as int, None).update(
                last.1 as int,
                Some(pos as usize),
            ),
            self.is_max_heap == prev.is_max_heap,
            pos > 0 ==> self.above(self.heap@[(pos - 1) / 2].0, self.heap@[pos].0),
        ensures
            self.wf_except_down(pos),
    {
        self.lemma_remove_mid(prev, idx, pos, n, last);
        let removed = prev.heap@[pos];
        assert forall|p: int|
            1 <= p < self.heap@.len() && (p - 1) / 2 != pos implies self.above(
            self.heap@[(p - 1) / 2].0,
            (#[trigger] self.heap@[p]).0,
        ) by {
            if p == pos {
                assert(pos > 0);
            }
        }
        if pos > 0 {
            assert forall|c: int|
                1 <= c < self.heap@.len() && (c - 1) / 2 == pos implies self.above(
                self.heap@[(pos - 1) / 2].0,
                (#[trigger] self.heap@[c]).0,
            ) by {
                assert(self.above(removed.0, self.heap@[c].0));
                assert(self.above(self.heap@[(pos - 1) / 2].0, removed.0));
            }
        }
    }

    /// After swapping a child that sorts no worse into its parent's slot,
    /// the heap is ordered except on the edge above that parent slot.
    proof fn lemma_after_up_swap(&self, prev: &Indexed, pos: int, parent: int)
        requires
            prev.wf_except_up(pos),
            prev.heap@.len() <= usize::MAX,
            pos > 0,
            parent == (pos - 1) / 2,
            prev.above(prev.heap@[pos].0, prev.heap@[parent].0),
            self.heap@ == prev.heap@.update(pos, prev.heap@[parent]).update(
                parent,
                prev.heap@[pos],
            ),
            self.positions@ == prev.positions@.update(
                prev.heap@[parent].1 as int,
                Some(pos as usize),
            ).update(prev.heap@[pos].1 as int, Some(parent as usize)),
            self.is_max_heap == prev.is_max_heap,
        ensures
            self.wf_except_up(parent),
            self.contents() == prev.contents(),
            forall|j: int| self.has_row(j) <==> prev.has_row(j),
    {
        self.lemma_swap_positions(prev, pos, parent);
        self.lemma_up_swap_order(prev, pos, parent);
        lemma_swap_multiset(prev.heap@, pos, parent);
    }
}

} // verus!
