//! Sliding rank: each emitted cell places the focal value inside its
//! window as an exact rational in `[-1, +1]`, ties contributing mid-ranks.

use vstd::prelude::*;
use rayon::iter::IntoParallelRefIterator;
use rayon::iter::ParallelIterator;
use crate::calculators::Rank;
use crate::calculators::RankScore;
use crate::calculators::rank_score;
use crate::window::count_valid;
use crate::window::lemma_count_valid_bounds;

verus! {

/// Number of valid cells of `col` in `[lo, hi)` strictly below `c`.
pub open spec fn count_less(col: Seq<Option<u64>>, lo: int, hi: int, c: u64) -> int
    decreases hi - lo,
{
    if lo >= hi {
        0
    } else {
        count_less(col, lo, hi - 1, c) + if col[hi - 1] matches Some(v) && v < c {
            1int
        } else {
            0int
        }
    }
}

/// Number of cells of `col` in `[lo, hi)` equal to `c`.
pub open spec fn count_equal(col: Seq<Option<u64>>, lo: int, hi: int, c: u64) -> int
    decreases hi - lo,
{
    if lo >= hi {
        0
    } else {
        count_equal(col, lo, hi - 1, c) + if col[hi - 1] == Some(c) {
            1int
        } else {
            0int
        }
    }
}

/// Cells below `c` and cells equal to `c` are disjoint classes of the valid
/// cells.
pub proof fn lemma_count_classes(col: Seq<Option<u64>>, lo: int, hi: int, c: u64)
    requires
        lo <= hi,
    ensures
        0 <= count_less(col, lo, hi, c),
        0 <= count_equal(col, lo, hi, c),
        count_less(col, lo, hi, c) + count_equal(col, lo, hi, c) <= count_valid(col, lo, hi),
    decreases hi - lo,
{
    if lo < hi {
        lemma_count_classes(col, lo, hi - 1, c);
    }
}

/// First row the rank pass compares against for the window ending at `r`:
/// the prefix grows until the window saturates at `length` rows.
pub open spec fn rank_range_start(r: int, length: int) -> int {
    if r < length {
        0
    } else {
        r - length + 1
    }
}

/// The rank cell at row `r`: missing while the pass has not started
/// (`r < min_length - 1`), when the focal cell is missing, or when the
/// window holds fewer than `min_length` valid observations; otherwise the
/// exact rational rank of the focal value among the window's valid cells.
pub open spec fn rank_cell(
    col: Seq<Option<u64>>,
    r: int,
    length: int,
    min_length: int,
) -> Option<RankScore> {
    if r < min_length - 1 {
        None
    } else if !(col[r] is Some) {
        None
    } else {
        let c = col[r]->0;
        let lo = rank_range_start(r, length);
        let valid = 1 + count_valid(col, lo, r);
        if valid >= min_length {
            Some(
                rank_score(
                    2 * count_less(col, lo, r, c),
                    1 + count_equal(col, lo, r, c),
                    valid,
                ),
            )
        } else {
            None
        }
    }
}

/// The rank pass over a whole column.
pub open spec fn rank_col(col: Seq<Option<u64>>, length: int, min_length: int) -> Seq<
    Option<RankScore>,
> {
    Seq::new(col.len(), |r: int| rank_cell(col, r, length, min_length))
}

/// Every emitted rank lies in `[-1, +1]`: its denominator is positive and
/// dominates the magnitude of its numerator. On a window whose other valid
/// cells all differ from the focal value, the rank is exactly
/// `(2 * count_less - den) / den`, the textbook position rank.
pub proof fn lemma_rank_cell_range(col: Seq<Option<u64>>, r: int, length: int, min_length: int)
    requires
        0 <= r < col.len() <= usize::MAX,
        1 <= min_length,
        1 <= length,
    ensures
        rank_cell(col, r, length, min_length) matches Some(rs) ==> {
            &&& 1 <= rs.den
            &&& -rs.den <= rs.num <= rs.den
            &&& (count_equal(col, rank_range_start(r, length), r, col[r]->0) == 0 && count_valid(
                col,
                rank_range_start(r, length),
                r,
            ) >= 1) ==> rs.num == 2 * count_less(col, rank_range_start(r, length), r, col[r]->0)
                - rs.den
        },
{
    if rank_cell(col, r, length, min_length) is Some {
        let c = col[r]->0;
        let lo = rank_range_start(r, length);
        lemma_count_classes(col, lo, r, c);
        lemma_count_valid_bounds(col, lo, r);
        let less = count_less(col, lo, r, c);
        let eq = count_equal(col, lo, r, c);
        let validc = count_valid(col, lo, r);
        assert(less + eq <= validc);
        assert(validc <= r - lo <= usize::MAX);
    }
}

/// One column of the sliding-rank pass.
pub fn process_rank_column(input_col: &Vec<Option<u64>>, length: usize, min_length: usize) -> (out:
    Vec<Option<RankScore>>)
    requires
        1 <= min_length <= length <= input_col@.len(),
    ensures
        out@ == rank_col(input_col@, length as int, min_length as int),
{
    let num_rows = input_col.len();
    let mut out: Vec<Option<RankScore>> = Vec::new();
    let mut row: usize = 0;
    while row < num_rows
        invariant
            1 <= min_length <= length <= input_col@.len(),
            num_rows == input_col@.len(),
            row <= num_rows,
            out@.len() == row,
            forall|r: int|
                0 <= r < row ==> out@[r] == rank_cell(
                    input_col@,
                    r,
                    length as int,
                    min_length as int,
                ),
        decreases num_rows - row,
    {
        let cell = if row + 1 < min_length {
            None
        } else {
            match input_col[row] {
                None => None,
                Some(current) => rank_one_row(input_col, row, length, min_length, current),
            }
        };
        proof {
            assert(cell == rank_cell(input_col@, row as int, length as int, min_length as int));
        }
        out.push(cell);
        row = row + 1;
    }
    proof {
        assert(out@ =~= rank_col(input_col@, length as int, min_length as int));
    }
    out
}

/// Tally one window against the focal value at `row` and finalise it, or
/// report the cell missing when too few of its cells are valid.
fn rank_one_row(
    input_col: &Vec<Option<u64>>,
    row: usize,
    length: usize,
    min_length: usize,
    current: u64,
) -> (out: Option<RankScore>)
    requires
        1 <= min_length <= length <= input_col@.len(),
        min_length - 1 <= row < input_col@.len(),
        input_col@[row as int] == Some(current),
    ensures
        out == rank_cell(input_col@, row as int, length as int, min_length as int),
{
    let ghost col = input_col@;
    let num_rows = input_col.len();
    let lo: usize = if row < length {
        0
    } else {
        row - length + 1
    };
    proof {
        assert(lo as int == rank_range_start(row as int, length as int));
    }
    let mut rank_count = Rank::new();
    let mut j: usize = lo;
    while j < row
        invariant
            num_rows == input_col@.len(),
            lo <= j <= row < input_col@.len(),
            input_col@[row as int] == Some(current),
            rank_count.wf(),
            rank_count.valid_count == 1 + count_valid(input_col@, lo as int, j as int),
            rank_count.greater_count == 2 * count_less(input_col@, lo as int, j as int, current),
            rank_count.equal_count == 1 + count_equal(input_col@, lo as int, j as int, current),
        decreases row - j,
    {
        proof {
            lemma_count_valid_bounds(input_col@, lo as int, j as int);
            assert(rank_count.valid_count <= 1 + j - lo);
        }
        let other = input_col[j];
        rank_count.add(other, current);
        j = j + 1;
    }
    if rank_count.valid_count >= min_length {
        Some(rank_count.get())
    } else {
        None
    }
}

/// Relies on rayon: `par_iter().map(..).collect::<Vec<_>>()` returns one
/// result per column in column order, and the closure only runs the
/// verified sequential pass [`process_rank_column`] on its column.
#[verifier::external_body]
fn par_rank_columns(input: &Vec<Vec<Option<u64>>>, length: usize, min_length: usize) -> (out: Vec<
    Vec<Option<RankScore>>,
>)
    requires
        1 <= min_length <= length,
        forall|c: int| 0 <= c < input@.len() ==> length <= #[trigger] input@[c]@.len(),
    ensures
        out@.len() == input@.len(),
        forall|c: int|
            0 <= c < out@.len() ==> #[trigger] out@[c]@ == rank_col(
                input@[c]@,
                length as int,
                min_length as int,
            ),
{
    input.par_iter().map(|col| process_rank_column(col, length, min_length)).collect()
}

/// The moving rank of a whole matrix of columns; the parallel fan-out
/// leaves every output column equal to [`rank_col`] of its input column,
/// exactly as the sequential walk does.
pub fn move_rank(
    input: &Vec<Vec<Option<u64>>>,
    length: usize,
    min_length: usize,
    parallel: bool,
) -> (out: Vec<Vec<Option<RankScore>>>)
    requires
        1 <= min_length <= length,
        forall|c: int| 0 <= c < input@.len() ==> length <= #[trigger] input@[c]@.len(),
    ensures
        out@.len() == input@.len(),
        forall|c: int|
            0 <= c < out@.len() ==> #[trigger] out@[c]@ == rank_col(
                input@[c]@,
                length as int,
                min_length as int,
            ),
{
    if parallel {
        par_rank_columns(input, length, min_length)
    } else {
        let num_cols = input.len();
        let mut out: Vec<Vec<Option<RankScore>>> = Vec::new();
        let mut c: usize = 0;
        while c < num_cols
            invariant
                num_cols == input@.len(),
                c <= num_cols,
                out@.len() == c,
                1 <= min_length <= length,
                forall|k: int| 0 <= k < input@.len() ==> length <= #[trigger] input@[k]@.len(),
                forall|k: int|
                    0 <= k < c ==> #[trigger] out@[k]@ == rank_col(
                        input@[k]@,
                        length as int,
                        min_length as int,
                    ),
            decreases num_cols - c,
        {
            let col_out = process_rank_column(&input[c], length, min_length);
            out.push(col_out);
            c = c + 1;
        }
        out
    }
}

/// Before the pass can have seen `min_length` observations, a rank cell
/// is missing.
pub proof fn lemma_rank_warmup_missing(col: Seq<Option<u64>>, r: int, length: int, min_length: int)
    requires
        r < min_length - 1,
    ensures
        rank_cell(col, r, length, min_length) is None,
{
}

/// What an aggregate rank owes the cell at row `r`: missing for a missing
/// focal value, else the focal value's exact mid-rank among all of the
/// column's valid cells.
pub open spec fn agg_rank_cell(col: Seq<Option<u64>>, r: int) -> Option<RankScore> {
    if !(col[r] is Some) {
        None
    } else {
        let c = col[r]->0;
        Some(
            rank_score(
                2 * count_less(col, 0, col.len() as int, c),
                count_equal(col, 0, col.len() as int, c),
                count_valid(col, 0, col.len() as int),
            ),
        )
    }
}

/// One column of the aggregate rank pass.
pub fn process_agg_rank_column(input_col: &Vec<Option<u64>>) -> (out: Vec<Option<RankScore>>)
    ensures
        out@.len() == input_col@.len(),
        forall|r: int| 0 <= r < out@.len() ==> #[trigger] out@[r] == agg_rank_cell(input_col@, r),
{
    let num_rows = input_col.len();
    let mut out: Vec<Option<RankScore>> = Vec::new();
    let mut row: usize = 0;
    while row < num_rows
        invariant
            num_rows == input_col@.len(),
            row <= num_rows,
            out@.len() == row,
            forall|r: int|
                0 <= r < row ==> #[trigger] out@[r] == agg_rank_cell(input_col@, r),
        decreases num_rows - row,
    {
        let cell = match input_col[row] {
            None => None,
            Some(current) => Some(agg_rank_one_row(input_col, row, current)),
        };
        out.push(cell);
        row = row + 1;
    }
    out
}

/// Tally the whole column against the focal value at `row` and finalise
/// it.
fn agg_rank_one_row(input_col: &Vec<Option<u64>>, row: usize, current: u64) -> (out: RankScore)
    requires
        row < input_col@.len(),
        input_col@[row as int] == Some(current),
    ensures
        Some(out) == agg_rank_cell(input_col@, row as int),
{
    let num_rows = input_col.len();
    let mut rank_count = Rank::new();
    let mut j: usize = 0;
    while j < num_rows
        invariant
            num_rows == input_col@.len(),
            j <= num_rows,
            row < num_rows,
            input_col@[row as int] == Some(current),
            rank_count.wf(),
            rank_count.valid_count == 1 + count_valid(input_col@, 0, j as int) - (if j > row {
                1int
            } else {
                0int
            }),
            rank_count.greater_count == 2 * count_less(input_col@, 0, j as int, current),
            rank_count.equal_count == 1 + count_equal(input_col@, 0, j as int, current) - (if j
                > row {
                1int
            } else {
                0int
            }),
        decreases num_rows - j,
    {
        proof {
            lemma_count_valid_bounds(input_col@, 0, j as int);
            lemma_count_classes(input_col@, 0, j as int, current);
        }
        if j != row {
            let other = input_col[j];
            rank_count.add(other, current);
        }
        j = j + 1;
    }
    rank_count.get()
}

/// Relies on rayon: `par_iter().map(..).collect::<Vec<_>>()` returns one
/// result per column in column order, and the closure only runs the
/// verified sequential pass [`process_agg_rank_column`] on its column.
#[verifier::external_body]
fn par_agg_rank_columns(input: &Vec<Vec<Option<u64>>>) -> (out: Vec<Vec<Option<RankScore>>>)
    ensures
        out@.len() == input@.len(),
        forall|c: int| 0 <= c < out@.len() ==> #[trigger] out@[c]@.len() == input@[c]@.len(),
        forall|c: int, r: int|
            0 <= c < out@.len() && 0 <= r < out@[c]@.len() ==> #[trigger] out@[c]@[r]
                == agg_rank_cell(input@[c]@, r),
{
    input.par_iter().map(|col| process_agg_rank_column(col)).collect()
}

/// The aggregate rank of a whole matrix: each valid cell's exact mid-rank
/// among its own column's valid cells, in `[-1, +1]`.
pub fn agg_rank(input: &Vec<Vec<Option<u64>>>, parallel: bool) -> (out: Vec<
    Vec<Option<RankScore>>,
>)
    ensures
        out@.len() == input@.len(),
        forall|c: int| 0 <= c < out@.len() ==> #[trigger] out@[c]@.len() == input@[c]@.len(),
        forall|c: int, r: int|
            0 <= c < out@.len() && 0 <= r < out@[c]@.len() ==> #[trigger] out@[c]@[r]
                == agg_rank_cell(input@[c]@, r),
{
    if parallel {
        par_agg_rank_columns(input)
    } else {
        let num_cols = input.len();
        let mut out: Vec<Vec<Option<RankScore>>> = Vec::new();
        let mut c: usize = 0;
        while c < num_cols
            invariant
                num_cols == input@.len(),
                c <= num_cols,
                out@.len() == c,
                forall|k: int| 0 <= k < c ==> #[trigger] out@[k]@.len() == input@[k]@.len(),
                forall|k: int, r: int|
                    0 <= k < c && 0 <= r < out@[k]@.len() ==> #[trigger] out@[k]@[r]
                        == agg_rank_cell(input@[k]@, r),
            decreases num_cols - c,
        {
            let col_out = process_agg_rank_column(&input[c]);
            out.push(col_out);
            c = c + 1;
        }
        out
    }
}

} // verus!
