//! The sliding window: its row span, its count of valid observations, and
//! the order statistics of its contents.

use vstd::prelude::*;

verus! {

/// First row of the window that ends at row `r`, for a window of `length`
/// rows: the span is `[win_start(r, length), r]`.
pub open spec fn win_start(r: int, length: int) -> int {
    if r + 1 - length > 0 {
        r + 1 - length
    } else {
        0
    }
}

/// Number of non-missing cells of `col` with row in the half-open range
/// `[lo, hi)`.
pub open spec fn count_valid(col: Seq<Option<u64>>, lo: int, hi: int) -> int
    decreases hi - lo,
{
    if lo >= hi {
        0
    } else {
        count_valid(col, lo, hi - 1) + if col[hi - 1] is Some {
            1int
        } else {
            0int
        }
    }
}

pub proof fn lemma_count_valid_bounds(col: Seq<Option<u64>>, lo: int, hi: int)
    requires
        lo <= hi,
    ensures
        0 <= count_valid(col, lo, hi) <= hi - lo,
    decreases hi - lo,
{
    if lo < hi {
        lemma_count_valid_bounds(col, lo, hi - 1);
    }
}

/// Peeling the lowest row off a range, rather than the highest one the
/// definition peels, changes the count by that row's validity.
pub proof fn lemma_count_valid_drop_lo(col: Seq<Option<u64>>, lo: int, hi: int)
    requires
        lo < hi,
    ensures
        count_valid(col, lo, hi) == count_valid(col, lo + 1, hi) + if col[lo] is Some {
            1int
        } else {
            0int
        },
    decreases hi - lo,
{
    if lo + 1 == hi {
        assert(count_valid(col, lo, hi) == count_valid(col, lo, lo) + if col[lo] is Some {
            1int
        } else {
            0int
        });
    } else {
        lemma_count_valid_drop_lo(col, lo, hi - 1);
        assert(count_valid(col, lo, hi) == count_valid(col, lo, hi - 1) + if col[hi - 1] is Some {
            1int
        } else {
            0int
        });
        assert(count_valid(col, lo + 1, hi) == count_valid(col, lo + 1, hi - 1) + if col[hi
            - 1] is Some {
            1int
        } else {
            0int
        });
    }
}

/// A positive count means some cell of the range is valid.
pub proof fn lemma_count_pos_has_valid(col: Seq<Option<u64>>, lo: int, hi: int)
    requires
        count_valid(col, lo, hi) > 0,
    ensures
        exists|j: int| lo <= j < hi && col[j] is Some,
    decreases hi - lo,
{
    if lo < hi {
        if col[hi - 1] is Some {
            assert(lo <= hi - 1 < hi && col[hi - 1] is Some);
        } else {
            lemma_count_pos_has_valid(col, lo, hi - 1);
        }
    }
}

/// `a` is at least as good as `b`: not above it when the minimum is sought,
/// not below it when the maximum is.
pub open spec fn better(take_min: bool, a: u64, b: u64) -> bool {
    if take_min {
        a <= b
    } else {
        a >= b
    }
}

/// The extremum of the valid cells of `col` with row in `[lo, hi)`: their
/// minimum when `take_min`, else their maximum; `None` when every cell in
/// the range is missing.
pub open spec fn win_ext_val(col: Seq<Option<u64>>, lo: int, hi: int, take_min: bool) -> Option<
    u64,
>
    decreases hi - lo,
{
    if lo >= hi {
        None
    } else {
        let rest = win_ext_val(col, lo, hi - 1, take_min);
        if col[hi - 1] is Some {
            let v = col[hi - 1]->0;
            match rest {
                None => Some(v),
                Some(m) => if better(take_min, v, m) {
                    Some(v)
                } else {
                    Some(m)
                },
            }
        } else {
            rest
        }
    }
}

/// The extremum is `None` exactly on an all-missing range; otherwise it is
/// attained by some valid cell and is at least as good as every valid cell.
pub proof fn lemma_win_ext_val_properties(
    col: Seq<Option<u64>>,
    lo: int,
    hi: int,
    take_min: bool,
)
    requires
        lo <= hi,
    ensures
        win_ext_val(col, lo, hi, take_min) is None <==> count_valid(col, lo, hi) == 0,
        win_ext_val(col, lo, hi, take_min) matches Some(m) ==> (exists|j: int|
            lo <= j < hi && col[j] == Some(m)) && (forall|j: int|
            lo <= j < hi && col[j] is Some ==> better(take_min, m, col[j]->0)),
    decreases hi - lo,
{
    if lo < hi {
        lemma_win_ext_val_properties(col, lo, hi - 1, take_min);
        lemma_count_valid_bounds(col, lo, hi - 1);
        let rest = win_ext_val(col, lo, hi - 1, take_min);
        if col[hi - 1] is Some {
            let v = col[hi - 1]->0;
            assert(col[hi - 1] == Some(v));
            match rest {
                None => {
                    assert forall|j: int| lo <= j < hi && col[j] is Some implies better(
                        take_min,
                        v,
                        col[j]->0,
                    ) by {
                        if j < hi - 1 {
                            lemma_count_valid_split(col, lo, j, hi - 1);
                            lemma_count_valid_split(col, j, j + 1, hi - 1);
                            lemma_count_valid_bounds(col, lo, j);
                            lemma_count_valid_bounds(col, j + 1, hi - 1);
                            assert(count_valid(col, j, j + 1) == count_valid(col, j, j) + 1);
                            assert(false);
                        }
                    }
                },
                Some(m) => {
                    let jm = choose|j: int| lo <= j < hi - 1 && col[j] == Some(m);
                    if better(take_min, v, m) {
                        assert(win_ext_val(col, lo, hi, take_min) == Some(v));
                        assert(lo <= hi - 1 < hi && col[hi - 1] == Some(v));
                    } else {
                        assert(win_ext_val(col, lo, hi, take_min) == Some(m));
                        assert(lo <= jm < hi && col[jm] == Some(m));
                    }
                },
            }
        } else {
            assert(win_ext_val(col, lo, hi, take_min) == rest);
            assert(count_valid(col, lo, hi) == count_valid(col, lo, hi - 1));
        }
    }
}

/// Only one value is both attained inside the range and at least as good as
/// every valid cell of the range: the extremum itself.
pub proof fn lemma_win_ext_val_unique(
    col: Seq<Option<u64>>,
    lo: int,
    hi: int,
    take_min: bool,
    x: u64,
)
    requires
        lo <= hi,
        exists|j: int| lo <= j < hi && col[j] == Some(x),
        forall|j: int| lo <= j < hi && col[j] is Some ==> better(take_min, x, col[j]->0),
    ensures
        win_ext_val(col, lo, hi, take_min) == Some(x),
{
    lemma_win_ext_val_properties(col, lo, hi, take_min);
    let j = choose|j: int| lo <= j < hi && col[j] == Some(x);
    assert(count_valid(col, lo, hi) > 0) by {
        lemma_count_valid_bounds(col, lo, j);
        lemma_count_valid_bounds(col, j + 1, hi);
        lemma_count_valid_split(col, lo, j + 1, hi);
        lemma_count_valid_split(col, lo, j, j + 1);
    }
    let m = win_ext_val(col, lo, hi, take_min)->0;
    assert(better(take_min, m, x));
    assert(better(take_min, x, m));
}

/// Counting over `[lo, hi)` splits at any midpoint.
pub proof fn lemma_count_valid_split(col: Seq<Option<u64>>, lo: int, mid: int, hi: int)
    requires
        lo <= mid <= hi,
    ensures
        count_valid(col, lo, hi) == count_valid(col, lo, mid) + count_valid(col, mid, hi),
    decreases hi - mid,
{
    if mid < hi {
        lemma_count_valid_split(col, lo, mid, hi - 1);
    }
}

/// The valid cells of `col` with row in `[lo, hi)`, in row order, each paired
/// with its row.
pub open spec fn win_pairs(col: Seq<Option<u64>>, lo: int, hi: int) -> Seq<(u64, usize)>
    decreases hi - lo,
{
    if lo >= hi {
        Seq::empty()
    } else {
        let rest = win_pairs(col, lo, hi - 1);
        if col[hi - 1] is Some {
            rest.push((col[hi - 1]->0, (hi - 1) as usize))
        } else {
            rest
        }
    }
}

/// Peeling the lowest row off the range removes exactly its pair from the
/// window's contents, when that row is valid.
pub proof fn lemma_win_pairs_drop_lo(col: Seq<Option<u64>>, lo: int, hi: int)
    requires
        0 <= lo < hi,
    ensures
        win_pairs(col, lo, hi).to_multiset() == if col[lo] is Some {
            win_pairs(col, lo + 1, hi).to_multiset().insert((col[lo]->0, lo as usize))
        } else {
            win_pairs(col, lo + 1, hi).to_multiset()
        },
    decreases hi - lo,
{
    broadcast use vstd::seq_lib::group_to_multiset_ensures, vstd::multiset::group_multiset_axioms;

    if lo + 1 == hi {
        assert(win_pairs(col, lo + 1, hi) =~= Seq::<(u64, usize)>::empty());
        assert(win_pairs(col, lo, lo) =~= Seq::<(u64, usize)>::empty());
        if col[lo] is Some {
            assert(win_pairs(col, lo, hi) =~= Seq::<(u64, usize)>::empty().push(
                (col[lo]->0, lo as usize),
            ));
            assert(win_pairs(col, lo, hi).to_multiset() =~= Seq::<(u64, usize)>::empty()
                .to_multiset().insert((col[lo]->0, lo as usize)));
        } else {
            assert(win_pairs(col, lo, hi) =~= Seq::<(u64, usize)>::empty());
        }
    } else {
        lemma_win_pairs_drop_lo(col, lo, hi - 1);
        let a = win_pairs(col, lo, hi - 1);
        let b = win_pairs(col, lo + 1, hi - 1);
        if col[hi - 1] is Some {
            let t = (col[hi - 1]->0, (hi - 1) as usize);
            assert(win_pairs(col, lo, hi) == a.push(t));
            assert(win_pairs(col, lo + 1, hi) == b.push(t));
            assert(a.push(t).to_multiset() =~= a.to_multiset().insert(t));
            assert(b.push(t).to_multiset() =~= b.to_multiset().insert(t));
            if col[lo] is Some {
                assert(a.to_multiset() =~= b.to_multiset().insert((col[lo]->0, lo as usize)));
                assert(a.push(t).to_multiset() =~= b.push(t).to_multiset().insert(
                    (col[lo]->0, lo as usize),
                ));
            }
        }
    }
}

pub proof fn lemma_win_pairs_len(col: Seq<Option<u64>>, lo: int, hi: int)
    requires
        lo <= hi,
    ensures
        win_pairs(col, lo, hi).len() == count_valid(col, lo, hi),
    decreases hi - lo,
{
    if lo < hi {
        lemma_win_pairs_len(col, lo, hi - 1);
    }
}

/// Every pair lists a valid cell of the range with its row, and rows appear
/// in strictly increasing order.
pub proof fn lemma_win_pairs_properties(col: Seq<Option<u64>>, lo: int, hi: int)
    requires
        0 <= lo <= hi <= usize::MAX,
    ensures
        forall|i: int|
            0 <= i < win_pairs(col, lo, hi).len() ==> {
                let p = #[trigger] win_pairs(col, lo, hi)[i];
                lo <= p.1 < hi && col[p.1 as int] == Some(p.0)
            },
        forall|i: int, k: int|
            0 <= i < k < win_pairs(col, lo, hi).len() ==> #[trigger] win_pairs(col, lo, hi)[i].1
                < #[trigger] win_pairs(col, lo, hi)[k].1,
    decreases hi - lo,
{
    if lo < hi {
        lemma_win_pairs_properties(col, lo, hi - 1);
        let rest = win_pairs(col, lo, hi - 1);
        let full = win_pairs(col, lo, hi);
        if col[hi - 1] is Some {
            let v = col[hi - 1]->0;
            let tail = (v, (hi - 1) as usize);
            assert(full == rest.push(tail));
            assert(full.len() == rest.len() + 1);
            assert(forall|i: int| 0 <= i < rest.len() ==> rest.push(tail)[i] == rest[i]);
            assert(rest.push(tail)[rest.len() as int] == tail);
            assert forall|i: int| 0 <= i < full.len() implies {
                let p = #[trigger] full[i];
                lo <= p.1 < hi && col[p.1 as int] == Some(p.0)
            } by {
                if i < rest.len() {
                    assert(full[i] == rest.push(tail)[i]);
                    assert(full[i] == rest[i]);
                    assert(lo <= rest[i].1 < hi - 1);
                    assert(col[rest[i].1 as int] == Some(rest[i].0));
                } else {
                    assert(full[i] == tail);
                    assert(col[hi - 1] == Some(v));
                }
            }
            assert forall|i: int, k: int| 0 <= i < k < full.len() implies full[i].1
                < full[k].1 by {
                if k < rest.len() {
                    assert(full[i] == rest[i] && full[k] == rest[k]);
                } else {
                    assert(full[k] == tail);
                    assert(full[i] == rest[i]);
                    assert(rest[i].1 < hi - 1);
                }
            }
        } else {
            assert(full == rest);
        }
    }
}

} // verus!
