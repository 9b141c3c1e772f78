//! Column drivers: the scalar-statistic emission schedule and the sliding
//! extremum pass, each walking one column row by row.

use vstd::prelude::*;
use rayon::iter::IntoParallelRefIterator;
use rayon::iter::ParallelIterator;
use crate::calculators::WindowState;
use crate::calculators::deque_add_spec;
use crate::calculators::deque_evict_spec;
use crate::window::better;
use crate::window::count_valid;
use crate::window::lemma_count_pos_has_valid;
use crate::window::lemma_count_valid_bounds;
use crate::window::lemma_count_valid_drop_lo;
use crate::window::lemma_win_ext_val_unique;
use crate::window::win_ext_val;
use crate::window::win_start;

verus! {

/// What one moving-window cell owes the caller of a scalar statistic: the
/// count of valid observations in the window ending at `r`, published only
/// when it reaches both `min_length` and the statistic's own floor
/// `domain_min`; otherwise the cell stays missing.
pub open spec fn plan_cell(
    col: Seq<Option<u64>>,
    r: int,
    length: int,
    min_length: int,
    domain_min: int,
) -> Option<usize> {
    let n = count_valid(col, win_start(r, length), r + 1);
    if n >= min_length && n >= domain_min {
        Some(n as usize)
    } else {
        None
    }
}

/// The emission schedule of a whole column.
pub open spec fn plan_col(
    col: Seq<Option<u64>>,
    length: int,
    min_length: int,
    domain_min: int,
) -> Seq<Option<usize>> {
    Seq::new(col.len(), |r: int| plan_cell(col, r, length, min_length, domain_min))
}

/// The extremum cell at row `r`: the window minimum (or maximum) once the
/// window holds at least `min_length` valid observations, else missing.
pub open spec fn ext_cell(
    col: Seq<Option<u64>>,
    r: int,
    length: int,
    min_length: int,
    take_min: bool,
) -> Option<u64> {
    if count_valid(col, win_start(r, length), r + 1) >= min_length {
        win_ext_val(col, win_start(r, length), r + 1, take_min)
    } else {
        None
    }
}

/// The extremum pass over a whole column.
pub open spec fn ext_col(
    col: Seq<Option<u64>>,
    length: int,
    min_length: int,
    take_min: bool,
) -> Seq<Option<u64>> {
    Seq::new(col.len(), |r: int| ext_cell(col, r, length, min_length, take_min))
}

/// The monotonic deque is sound for the window rows `[s, e)` of `col`:
/// every entry is a valid cell of the range with rows strictly increasing
/// and values ordered best-first, and every valid cell of the range is
/// covered by an entry at least as good that entered no earlier.
pub open spec fn deque_inv(
    d: Seq<(u64, usize)>,
    col: Seq<Option<u64>>,
    s: int,
    e: int,
    take_min: bool,
) -> bool {
    &&& forall|i: int|
        0 <= i < d.len() ==> s <= #[trigger] d[i].1 < e && col[d[i].1 as int] == Some(d[i].0)
    &&& forall|i: int, k: int| 0 <= i < k < d.len() ==> #[trigger] d[i].1 < #[trigger] d[k].1
    &&& forall|i: int, k: int|
        0 <= i < k < d.len() ==> better(take_min, #[trigger] d[i].0, #[trigger] d[k].0)
    &&& forall|j: int|
        s <= j < e && #[trigger] col[j] is Some ==> exists|i: int|
            0 <= i < d.len() && #[trigger] d[i].1 >= j && better(take_min, d[i].0, col[j]->0)
}

/// Where the admission of `v` cuts the deque: entries from this index on
/// sort no better than `v` and leave.
pub open spec fn deque_cut(d: Seq<(u64, usize)>, v: u64, take_min: bool) -> int
    decreases d.len(),
{
    if d.len() == 0 {
        0
    } else if !better(take_min, d.last().0, v) {
        deque_cut(d.drop_last(), v, take_min)
    } else {
        d.len() as int
    }
}

/// Admission keeps a prefix of the deque and appends the new pair; every
/// entry it drops sorted no better than the new value.
pub proof fn lemma_deque_add_shape(d: Seq<(u64, usize)>, v: u64, idx: usize, take_min: bool)
    ensures
        0 <= deque_cut(d, v, take_min) <= d.len(),
        deque_add_spec(d, v, idx, take_min) == d.take(deque_cut(d, v, take_min)).push((v, idx)),
        forall|i: int|
            deque_cut(d, v, take_min) <= i < d.len() ==> !better(take_min, #[trigger] d[i].0, v),
        deque_cut(d, v, take_min) > 0 ==> better(take_min, d[deque_cut(d, v, take_min) - 1].0, v),
    decreases d.len(),
{
    if d.len() == 0 {
        assert(deque_add_spec(d, v, idx, take_min) =~= d.take(0).push((v, idx)));
    } else if !better(take_min, d.last().0, v) {
        let dd = d.drop_last();
        lemma_deque_add_shape(dd, v, idx, take_min);
        let k = deque_cut(dd, v, take_min);
        assert(deque_cut(d, v, take_min) == k);
        assert(dd.take(k) =~= d.take(k));
        assert(forall|i: int| 0 <= i < dd.len() ==> dd[i] == d[i]);
    } else {
        assert(d.take(d.len() as int) =~= d);
    }
}

/// Admitting the valid cell at `row` preserves the deque invariant while
/// the window range grows to include `row`.
pub proof fn lemma_deque_admit(
    d: Seq<(u64, usize)>,
    col: Seq<Option<u64>>,
    s: int,
    row: usize,
    v: u64,
    take_min: bool,
)
    requires
        deque_inv(d, col, s, row as int, take_min),
        0 <= s <= row as int,
        col[row as int] == Some(v),
    ensures
        deque_inv(deque_add_spec(d, v, row, take_min), col, s, row as int + 1, take_min),
{
    lemma_deque_add_shape(d, v, row, take_min);
    let k = deque_cut(d, v, take_min);
    let res = deque_add_spec(d, v, row, take_min);
    assert(res == d.take(k).push((v, row)));
    assert(res.len() == k + 1);
    assert(forall|i: int| 0 <= i < k ==> res[i] == d[i]);
    assert(res[k] == (v, row));
    assert forall|i: int, q: int| 0 <= i < q < res.len() implies better(
        take_min,
        res[i].0,
        res[q].0,
    ) by {
        if q < k {
        } else {
            assert(res[q] == (v, row));
            if i < k {
                assert(better(take_min, d[k - 1].0, v));
                if i < k - 1 {
                    assert(better(take_min, d[i].0, d[k - 1].0));
                }
            }
        }
    }
    assert forall|j: int| s <= j < row as int + 1 && #[trigger] col[j] is Some implies exists|
        i: int,
    | 0 <= i < res.len() && #[trigger] res[i].1 >= j && better(take_min, res[i].0, col[j]->0) by {
        if j == row as int {
            assert(res[k].1 >= j && better(take_min, res[k].0, col[j]->0));
        } else {
            let i0 = choose|i: int|
                0 <= i < d.len() && #[trigger] d[i].1 >= j && better(take_min, d[i].0, col[j]->0);
            if i0 < k {
                assert(res[i0].1 >= j && better(take_min, res[i0].0, col[j]->0));
            } else {
                assert(!better(take_min, d[i0].0, v));
                assert(better(take_min, v, col[j]->0));
                assert(res[k].1 >= j && better(take_min, res[k].0, col[j]->0));
            }
        }
    }
}

/// Stepping the window start past `s` preserves the deque invariant once
/// the front entry at row `s`, if any, has been dropped.
pub proof fn lemma_deque_evict(
    d: Seq<(u64, usize)>,
    col: Seq<Option<u64>>,
    s: int,
    e: int,
    pidx: usize,
    take_min: bool,
)
    requires
        deque_inv(d, col, s, e, take_min),
        s <= e,
        pidx as int == s,
    ensures
        deque_inv(deque_evict_spec(d, pidx), col, s + 1, e, take_min),
{
    let res = deque_evict_spec(d, pidx);
    if d.len() > 0 && d[0].1 == pidx {
        assert(res == d.subrange(1, d.len() as int));
        assert(forall|i: int| 0 <= i < res.len() ==> res[i] == d[i + 1]);
        assert forall|j: int| s + 1 <= j < e && #[trigger] col[j] is Some implies exists|i: int|
            0 <= i < res.len() && #[trigger] res[i].1 >= j && better(
                take_min,
                res[i].0,
                col[j]->0,
            ) by {
            let i0 = choose|i: int|
                0 <= i < d.len() && #[trigger] d[i].1 >= j && better(take_min, d[i].0, col[j]->0);
            assert(d[i0].1 >= j > s == d[0].1);
            assert(i0 != 0);
            assert(res[i0 - 1] == d[i0]);
            assert(res[i0 - 1].1 >= j && better(take_min, res[i0 - 1].0, col[j]->0));
        }
    } else {
        assert(res == d);
        if d.len() > 0 {
            assert(d[0].1 != s);
            assert forall|i: int| 0 <= i < d.len() implies s + 1 <= #[trigger] d[i].1 < e by {
                if i > 0 {
                    assert(d[0].1 < d[i].1);
                }
            }
        }
    }
}

/// With at least one valid cell in range, the deque is non-empty and its
/// front value is exactly the window extremum.
pub proof fn lemma_deque_front(
    d: Seq<(u64, usize)>,
    col: Seq<Option<u64>>,
    s: int,
    e: int,
    take_min: bool,
)
    requires
        deque_inv(d, col, s, e, take_min),
        0 <= s <= e,
        count_valid(col, s, e) > 0,
    ensures
        d.len() > 0,
        win_ext_val(col, s, e, take_min) == Some(d[0].0),
{
    lemma_count_pos_has_valid(col, s, e);
    let j0 = choose|j: int| s <= j < e && col[j] is Some;
    assert(exists|i: int|
        0 <= i < d.len() && #[trigger] d[i].1 >= j0 && better(take_min, d[i].0, col[j0]->0));
    let x = d[0].0;
    assert(col[d[0].1 as int] == Some(x) && s <= d[0].1 < e);
    assert forall|j: int| s <= j < e && #[trigger] col[j] is Some implies better(
        take_min,
        x,
        col[j]->0,
    ) by {
        let i0 = choose|i: int|
            0 <= i < d.len() && #[trigger] d[i].1 >= j && better(take_min, d[i].0, col[j]->0);
        if i0 > 0 {
            assert(better(take_min, d[0].0, d[i0].0));
        }
    }
    lemma_win_ext_val_unique(col, s, e, take_min, x);
}

/// One full window step at `row`: evicting the cell that leaves the window
/// (once it is full) and admitting the cell at `row` keeps the deque
/// invariant, and the window count moves by the two cells' validity.
#[verifier::rlimit(100)]
pub proof fn lemma_deque_step(
    d0: Seq<(u64, usize)>,
    col: Seq<Option<u64>>,
    row: usize,
    length: usize,
    take_min: bool,
)
    requires
        1 <= length,
        (row as int) < col.len(),
        deque_inv(d0, col, win_start(row as int - 1, length as int), row as int, take_min),
    ensures
        ({
            let sprev = win_start(row as int - 1, length as int);
            let snew = win_start(row as int, length as int);
            let prec = if row >= length {
                col[sprev]
            } else {
                None
            };
            let d1 = if prec is Some {
                deque_evict_spec(d0, (row - length) as usize)
            } else {
                d0
            };
            let d2 = if col[row as int] is Some {
                deque_add_spec(d1, col[row as int]->0, row, take_min)
            } else {
                d1
            };
            &&& deque_inv(d2, col, snew, row as int + 1, take_min)
            &&& count_valid(col, snew, row as int + 1) == count_valid(col, sprev, row as int) + (
            if col[row as int] is Some {
                1int
            } else {
                0int
            }) - (if prec is Some {
                1int
            } else {
                0int
            })
        }),
{
    let sprev = win_start(row as int - 1, length as int);
    let snew = win_start(row as int, length as int);
    let prec = if row >= length {
        col[sprev]
    } else {
        None
    };
    let d1 = if prec is Some {
        deque_evict_spec(d0, (row - length) as usize)
    } else {
        d0
    };
    if row >= length {
        assert(sprev == row - length);
        assert(snew == sprev + 1);
        if prec is Some {
            lemma_deque_evict(d0, col, sprev, row as int, (row - length) as usize, take_min);
        } else {
            assert forall|i: int| 0 <= i < d0.len() implies snew <= #[trigger] d0[i].1
                < row as int by {
                assert(col[d0[i].1 as int] == Some(d0[i].0));
                if d0[i].1 as int == sprev {
                    assert(col[sprev] is Some);
                }
            }
        }
        lemma_count_valid_drop_lo(col, sprev, row as int);
    } else {
        assert(snew == sprev);
    }
    assert(deque_inv(d1, col, snew, row as int, take_min));
    match col[row as int] {
        Some(v) => {
            lemma_deque_admit(d1, col, snew, row, v, take_min);
        },
        None => {
            assert forall|j: int|
                snew <= j < row as int + 1 && #[trigger] col[j] is Some implies exists|i: int|
                0 <= i < d1.len() && #[trigger] d1[i].1 >= j && better(
                take_min,
                d1[i].0,
                col[j]->0,
            ) by {
                assert(j != row as int);
            }
        },
    }
}

/// One column of the sliding-extremum pass: the minimum when `take_min`,
/// else the maximum, of each row's window, missing until the window holds
/// `min_length` valid observations.
#[verifier::rlimit(50)]
pub fn process_deque_column(
    input_col: &Vec<Option<u64>>,
    length: usize,
    min_length: usize,
    take_min: bool,
) -> (out: Vec<Option<u64>>)
    requires
        1 <= min_length <= length <= input_col@.len(),
    ensures
        out@ == ext_col(input_col@, length as int, min_length as int, take_min),
{
    let num_rows = input_col.len();
    let mut out: Vec<Option<u64>> = Vec::new();
    let mut deque: Vec<(u64, usize)> = Vec::new();
    let mut window = WindowState::new();
    let mut row: usize = 0;
    while row < num_rows
        invariant
            1 <= min_length <= length <= input_col@.len(),
            num_rows == input_col@.len(),
            row <= num_rows,
            out@.len() == row,
            forall|r: int|
                0 <= r < row ==> out@[r] == ext_cell(
                    input_col@,
                    r,
                    length as int,
                    min_length as int,
                    take_min,
                ),
            window.observations == count_valid(
                input_col@,
                win_start(row as int - 1, length as int),
                row as int,
            ),
            deque_inv(
                deque@,
                input_col@,
                win_start(row as int - 1, length as int),
                row as int,
                take_min,
            ),
        decreases num_rows - row,
    {
        let ghost col = input_col@;
        let ghost sprev = win_start(row as int - 1, length as int);
        let ghost snew = win_start(row as int, length as int);
        proof {
            lemma_count_valid_bounds(col, sprev, row as int);
        }
        if row >= length {
            window.refresh(input_col, row, length);
            proof {
                assert(snew == sprev + 1);
                assert(window.precedent_idx as int == sprev);
                lemma_count_valid_drop_lo(col, sprev, row as int);
                lemma_count_valid_bounds(col, sprev + 1, row as int);
            }
        } else {
            window.current = input_col[row];
            window.precedent = None;
            proof {
                assert(snew == sprev);
            }
        }
        let ghost d0 = deque@;
        let ghost obs0 = window.observations;
        window.compute_deque_row(&mut deque, row, take_min);
        proof {
            lemma_deque_step(d0, col, row, length, take_min);
            assert(deque_inv(deque@, col, snew, row as int + 1, take_min));
            assert(window.observations == count_valid(col, snew, row as int + 1));
        }
        if window.observations >= min_length {
            proof {
                lemma_deque_front(deque@, col, snew, row as int + 1, take_min);
            }
            let front = deque[0];
            out.push(Some(front.0));
        } else {
            out.push(None);
        }
        row = row + 1;
    }
    proof {
        assert(out@ =~= ext_col(input_col@, length as int, min_length as int, take_min));
    }
    out
}

/// The window count moves by the validity of the admitted and evicted
/// cells when the window slides from ending at `row - 1` to ending at
/// `row`.
pub proof fn lemma_count_step(col: Seq<Option<u64>>, row: usize, length: usize)
    requires
        1 <= length,
        (row as int) < col.len(),
    ensures
        count_valid(col, win_start(row as int, length as int), row as int + 1) == count_valid(
            col,
            win_start(row as int - 1, length as int),
            row as int,
        ) + (if col[row as int] is Some {
            1int
        } else {
            0int
        }) - (if row >= length && col[win_start(row as int - 1, length as int)] is Some {
            1int
        } else {
            0int
        }),
{
    let sprev = win_start(row as int - 1, length as int);
    let snew = win_start(row as int, length as int);
    if row >= length {
        assert(snew == sprev + 1);
        lemma_count_valid_drop_lo(col, sprev, row as int);
    } else {
        assert(snew == sprev);
    }
}

/// One column of the scalar-statistic schedule: each row carries the
/// window's valid-observation count when the statistic is owed there, and
/// stays missing otherwise.
pub fn process_stat_column(
    input_col: &Vec<Option<u64>>,
    length: usize,
    min_length: usize,
    domain_min: usize,
) -> (out: Vec<Option<usize>>)
    requires
        1 <= min_length <= length <= input_col@.len(),
    ensures
        out@ == plan_col(input_col@, length as int, min_length as int, domain_min as int),
{
    let num_rows = input_col.len();
    let mut out: Vec<Option<usize>> = Vec::new();
    let mut window = WindowState::new();
    let mut row: usize = 0;
    while row < num_rows
        invariant
            1 <= min_length <= length <= input_col@.len(),
            num_rows == input_col@.len(),
            row <= num_rows,
            out@.len() == row,
            forall|r: int|
                0 <= r < row ==> out@[r] == plan_cell(
                    input_col@,
                    r,
                    length as int,
                    min_length as int,
                    domain_min as int,
                ),
            window.observations == count_valid(
                input_col@,
                win_start(row as int - 1, length as int),
                row as int,
            ),
        decreases num_rows - row,
    {
        let ghost col = input_col@;
        let ghost sprev = win_start(row as int - 1, length as int);
        let ghost snew = win_start(row as int, length as int);
        proof {
            lemma_count_valid_bounds(col, sprev, row as int);
        }
        if row >= length {
            window.refresh(input_col, row, length);
            proof {
                lemma_count_valid_drop_lo(col, sprev, row as int);
                lemma_count_valid_bounds(col, sprev + 1, row as int);
            }
        } else {
            window.current = input_col[row];
            window.precedent = None;
        }
        window.compute_row();
        proof {
            lemma_count_step(col, row, length);
        }
        if window.observations >= min_length && window.observations >= domain_min {
            out.push(Some(window.observations));
        } else {
            out.push(None);
        }
        row = row + 1;
    }
    proof {
        assert(out@ =~= plan_col(
            input_col@,
            length as int,
            min_length as int,
            domain_min as int,
        ));
    }
    out
}

/// Relies on rayon: `par_iter().map(..).collect::<Vec<_>>()` returns one
/// result per column in column order, and the closure only runs the
/// verified sequential pass [`process_deque_column`] on its column.
#[verifier::external_body]
fn par_deque_columns(
    input: &Vec<Vec<Option<u64>>>,
    length: usize,
    min_length: usize,
    take_min: bool,
) -> (out: Vec<Vec<Option<u64>>>)
    requires
        1 <= min_length <= length,
        forall|c: int| 0 <= c < input@.len() ==> length <= #[trigger] input@[c]@.len(),
    ensures
        out@.len() == input@.len(),
        forall|c: int|
            0 <= c < out@.len() ==> #[trigger] out@[c]@ == ext_col(
                input@[c]@,
                length as int,
                min_length as int,
                take_min,
            ),
{
    input.par_iter().map(|col| process_deque_column(col, length, min_length, take_min)).collect()
}

/// Relies on rayon: `par_iter().map(..).collect::<Vec<_>>()` returns one
/// result per column in column order, and the closure only runs the
/// verified sequential pass [`process_stat_column`] on its column.
#[verifier::external_body]
fn par_stat_columns(
    input: &Vec<Vec<Option<u64>>>,
    length: usize,
    min_length: usize,
    domain_min: usize,
) -> (out: Vec<Vec<Option<usize>>>)
    requires
        1 <= min_length <= length,
        forall|c: int| 0 <= c < input@.len() ==> length <= #[trigger] input@[c]@.len(),
    ensures
        out@.len() == input@.len(),
        forall|c: int|
            0 <= c < out@.len() ==> #[trigger] out@[c]@ == plan_col(
                input@[c]@,
                length as int,
                min_length as int,
                domain_min as int,
            ),
{
    input.par_iter().map(
        |col| process_stat_column(col, length, min_length, domain_min),
    ).collect()
}

/// The moving scalar-statistic schedule for a whole matrix of columns,
/// sequential or fanned out one task per column; either way each output
/// column equals [`plan_col`] of its input column.
pub fn move_template(
    input: &Vec<Vec<Option<u64>>>,
    length: usize,
    min_length: usize,
    domain_min: usize,
    parallel: bool,
) -> (out: Vec<Vec<Option<usize>>>)
    requires
        1 <= min_length <= length,
        forall|c: int| 0 <= c < input@.len() ==> length <= #[trigger] input@[c]@.len(),
    ensures
        out@.len() == input@.len(),
        forall|c: int|
            0 <= c < out@.len() ==> #[trigger] out@[c]@ == plan_col(
                input@[c]@,
                length as int,
                min_length as int,
                domain_min as int,
            ),
{
    if parallel {
        par_stat_columns(input, length, min_length, domain_min)
    } else {
        let num_cols = input.len();
        let mut out: Vec<Vec<Option<usize>>> = Vec::new();
        let mut c: usize = 0;
        while c < num_cols
            invariant
                num_cols == input@.len(),
                c <= num_cols,
                out@.len() == c,
                1 <= min_length <= length,
                forall|k: int| 0 <= k < input@.len() ==> length <= #[trigger] input@[k]@.len(),
                forall|k: int|
                    0 <= k < c ==> #[trigger] out@[k]@ == plan_col(
                        input@[k]@,
                        length as int,
                        min_length as int,
                        domain_min as int,
                    ),
            decreases num_cols - c,
        {
            let col_out = process_stat_column(&input[c], length, min_length, domain_min);
            out.push(col_out);
            c = c + 1;
        }
        out
    }
}

/// The moving extremum for a whole matrix of columns, sequential or fanned
/// out one task per column; either way each output column equals
/// [`ext_col`] of its input column.
pub fn move_deque_template(
    input: &Vec<Vec<Option<u64>>>,
    length: usize,
    min_length: usize,
    take_min: bool,
    parallel: bool,
) -> (out: Vec<Vec<Option<u64>>>)
    requires
        1 <= min_length <= length,
        forall|c: int| 0 <= c < input@.len() ==> length <= #[trigger] input@[c]@.len(),
    ensures
        out@.len() == input@.len(),
        forall|c: int|
            0 <= c < out@.len() ==> #[trigger] out@[c]@ == ext_col(
                input@[c]@,
                length as int,
                min_length as int,
                take_min,
            ),
{
    if parallel {
        par_deque_columns(input, length, min_length, take_min)
    } else {
        let num_cols = input.len();
        let mut out: Vec<Vec<Option<u64>>> = Vec::new();
        let mut c: usize = 0;
        while c < num_cols
            invariant
                num_cols == input@.len(),
                c <= num_cols,
                out@.len() == c,
                1 <= min_length <= length,
                forall|k: int| 0 <= k < input@.len() ==> length <= #[trigger] input@[k]@.len(),
                forall|k: int|
                    0 <= k < c ==> #[trigger] out@[k]@ == ext_col(
                        input@[k]@,
                        length as int,
                        min_length as int,
                        take_min,
                    ),
            decreases num_cols - c,
        {
            let col_out = process_deque_column(&input[c], length, min_length, take_min);
            out.push(col_out);
            c = c + 1;
        }
        out
    }
}

/// What an aggregate scalar pass owes one column: the count of its valid
/// cells, published only when the statistic is defined on that count.
pub open spec fn agg_plan_cell(col: Seq<Option<u64>>, domain_min: int) -> Option<usize> {
    let n = count_valid(col, 0, col.len() as int);
    if n >= domain_min && n >= 1 {
        Some(n as usize)
    } else {
        None
    }
}

/// One column of the aggregate scalar schedule.
pub fn process_agg_stat_column(input_col: &Vec<Option<u64>>, domain_min: usize) -> (out: Option<
    usize,
>)
    ensures
        out == agg_plan_cell(input_col@, domain_min as int),
{
    let num_rows = input_col.len();
    let mut cnt: usize = 0;
    let mut row: usize = 0;
    while row < num_rows
        invariant
            num_rows == input_col@.len(),
            row <= num_rows,
            cnt == count_valid(input_col@, 0, row as int),
        decreases num_rows - row,
    {
        proof {
            lemma_count_valid_bounds(input_col@, 0, row as int);
        }
        if input_col[row].is_some() {
            cnt = cnt + 1;
        }
        row = row + 1;
    }
    if cnt >= domain_min && cnt >= 1 {
        Some(cnt)
    } else {
        None
    }
}

/// The aggregate extremum of one column: the minimum (or maximum) of all
/// its valid cells, missing only when every cell is missing, broadcast
/// over the column's full height.
pub fn process_agg_deque_column(input_col: &Vec<Option<u64>>, take_min: bool) -> (out: Vec<
    Option<u64>,
>)
    ensures
        out@.len() == input_col@.len(),
        forall|r: int|
            0 <= r < out@.len() ==> #[trigger] out@[r] == win_ext_val(
                input_col@,
                0,
                input_col@.len() as int,
                take_min,
            ),
{
    let num_rows = input_col.len();
    let mut best: Option<u64> = None;
    let mut row: usize = 0;
    while row < num_rows
        invariant
            num_rows == input_col@.len(),
            row <= num_rows,
            best == win_ext_val(input_col@, 0, row as int, take_min),
        decreases num_rows - row,
    {
        match input_col[row] {
            Some(v) => {
                best = match best {
                    None => Some(v),
                    Some(m) => if take_min {
                        if v <= m {
                            Some(v)
                        } else {
                            Some(m)
                        }
                    } else {
                        if v >= m {
                            Some(v)
                        } else {
                            Some(m)
                        }
                    },
                };
            },
            None => (),
        }
        row = row + 1;
    }
    let mut out: Vec<Option<u64>> = Vec::new();
    let mut r: usize = 0;
    while r < num_rows
        invariant
            num_rows == input_col@.len(),
            r <= num_rows,
            out@.len() == r,
            best == win_ext_val(input_col@, 0, num_rows as int, take_min),
            forall|i: int| 0 <= i < r ==> #[trigger] out@[i] == best,
        decreases num_rows - r,
    {
        out.push(best);
        r = r + 1;
    }
    out
}

/// Relies on rayon: `par_iter().map(..).collect::<Vec<_>>()` returns one
/// result per column in column order, and the closure only runs the
/// verified sequential pass [`process_agg_deque_column`] on its column.
#[verifier::external_body]
fn par_agg_deque_columns(input: &Vec<Vec<Option<u64>>>, take_min: bool) -> (out: Vec<
    Vec<Option<u64>>,
>)
    ensures
        out@.len() == input@.len(),
        forall|c: int, r: int|
            0 <= c < out@.len() && 0 <= r < out@[c]@.len() ==> #[trigger] out@[c]@[r]
                == win_ext_val(input@[c]@, 0, input@[c]@.len() as int, take_min),
        forall|c: int| 0 <= c < out@.len() ==> #[trigger] out@[c]@.len() == input@[c]@.len(),
{
    input.par_iter().map(|col| process_agg_deque_column(col, take_min)).collect()
}

/// Relies on rayon: `par_iter().map(..).collect::<Vec<_>>()` returns one
/// result per column in column order, and the closure only runs the
/// verified sequential pass [`process_agg_stat_column`] on its column.
#[verifier::external_body]
fn par_agg_stat_columns(input: &Vec<Vec<Option<u64>>>, domain_min: usize) -> (out: Vec<
    Option<usize>,
>)
    ensures
        out@.len() == input@.len(),
        forall|c: int|
            0 <= c < out@.len() ==> #[trigger] out@[c] == agg_plan_cell(
                input@[c]@,
                domain_min as int,
            ),
{
    input.par_iter().map(|col| process_agg_stat_column(col, domain_min)).collect()
}

/// The aggregate scalar schedule of a whole matrix: one published count
/// per column, or missing where the statistic is undefined on the column.
pub fn agg_template(input: &Vec<Vec<Option<u64>>>, domain_min: usize, parallel: bool) -> (out:
    Vec<Option<usize>>)
    ensures
        out@.len() == input@.len(),
        forall|c: int|
            0 <= c < out@.len() ==> #[trigger] out@[c] == agg_plan_cell(
                input@[c]@,
                domain_min as int,
            ),
{
    if parallel {
        par_agg_stat_columns(input, domain_min)
    } else {
        let num_cols = input.len();
        let mut out: Vec<Option<usize>> = Vec::new();
        let mut c: usize = 0;
        while c < num_cols
            invariant
                num_cols == input@.len(),
                c <= num_cols,
                out@.len() == c,
                forall|k: int|
                    0 <= k < c ==> #[trigger] out@[k] == agg_plan_cell(
                        input@[k]@,
                        domain_min as int,
                    ),
            decreases num_cols - c,
        {
            let cell = process_agg_stat_column(&input[c], domain_min);
            out.push(cell);
            c = c + 1;
        }
        out
    }
}

/// The aggregate extremum of a whole matrix: each output column is its
/// input column's minimum (or maximum) broadcast over the column, missing
/// only where the whole column is missing.
pub fn agg_deque_template(input: &Vec<Vec<Option<u64>>>, take_min: bool, parallel: bool) -> (out:
    Vec<Vec<Option<u64>>>)
    ensures
        out@.len() == input@.len(),
        forall|c: int| 0 <= c < out@.len() ==> #[trigger] out@[c]@.len() == input@[c]@.len(),
        forall|c: int, r: int|
            0 <= c < out@.len() && 0 <= r < out@[c]@.len() ==> #[trigger] out@[c]@[r]
                == win_ext_val(input@[c]@, 0, input@[c]@.len() as int, take_min),
{
    if parallel {
        par_agg_deque_columns(input, take_min)
    } else {
        let num_cols = input.len();
        let mut out: Vec<Vec<Option<u64>>> = Vec::new();
        let mut c: usize = 0;
        while c < num_cols
            invariant
                num_cols == input@.len(),
                c <= num_cols,
                out@.len() == c,
                forall|k: int| 0 <= k < c ==> #[trigger] out@[k]@.len() == input@[k]@.len(),
                forall|k: int, r: int|
                    0 <= k < c && 0 <= r < out@[k]@.len() ==> #[trigger] out@[k]@[r]
                        == win_ext_val(input@[k]@, 0, input@[k]@.len() as int, take_min),
            decreases num_cols - c,
        {
            let col_out = process_agg_deque_column(&input[c], take_min);
            out.push(col_out);
            c = c + 1;
        }
        out
    }
}

/// An extremum cell is missing exactly when its window holds fewer than
/// `min_length` valid observations; a schedule cell exactly when the count
/// also clears the statistic's own floor.
pub proof fn lemma_cell_missing_iff(
    col: Seq<Option<u64>>,
    r: int,
    length: int,
    min_length: int,
    domain_min: int,
    take_min: bool,
)
    requires
        1 <= min_length,
        1 <= length,
        0 <= r,
    ensures
        ext_cell(col, r, length, min_length, take_min) is None <==> count_valid(
            col,
            win_start(r, length),
            r + 1,
        ) < min_length,
        plan_cell(col, r, length, min_length, domain_min) is None <==> (count_valid(
            col,
            win_start(r, length),
            r + 1,
        ) < min_length || count_valid(col, win_start(r, length), r + 1) < domain_min),
{
    let s = win_start(r, length);
    crate::window::lemma_win_ext_val_properties(col, s, r + 1, take_min);
}

/// Before the pass can have seen `min_length` observations — on every row
/// earlier than `min_length - 1` — both the scalar schedule and the
/// extremum pass leave the cell missing.
pub proof fn lemma_warmup_missing(
    col: Seq<Option<u64>>,
    r: int,
    length: int,
    min_length: int,
    domain_min: int,
    take_min: bool,
)
    requires
        0 <= r < min_length - 1,
        1 <= min_length <= length,
    ensures
        plan_cell(col, r, length, min_length, domain_min) is None,
        ext_cell(col, r, length, min_length, take_min) is None,
{
    lemma_count_valid_bounds(col, win_start(r, length), r + 1);
}

} // verus!
