//! Moving-window and column-aggregate statistics over columns of numeric
//! cells.
//!
//! A cell is `Option<u64>`: `None` is a missing observation, `Some(k)` carries
//! an order-preserving integer key for the observed value (the caller encodes
//! its numeric domain so that key order and key equality agree with value
//! order and value equality). Every statistic that depends only on order,
//! equality and counts — minimum, maximum, median, rank, and the emission
//! schedule of the scalar statistics — is computed and verified here. The
//! caller performs its own arithmetic (sums, means and higher moments) on the
//! schedule this library proves correct.
//!
//! A matrix is a vector of columns; each operation walks one column at a
//! time, with an optional data-parallel fan-out across columns that leaves
//! each output bit-identical to the sequential form.

use vstd::prelude::*;

pub mod calculators;
pub mod heaps;
pub mod medians;
pub mod ranking;
pub mod templates;
pub mod window;

use crate::templates::agg_deque_template;
use crate::templates::ext_col;
use crate::templates::move_deque_template;
use crate::window::win_ext_val;

verus! {

/// The window parameters a moving pass accepts for a matrix of
/// `num_rows` rows: a length within the column and a positive minimum no
/// larger than it. Anything else is rejected before any column work.
pub fn valid_window_args(num_rows: usize, length: usize, min_length: usize) -> (ok: bool)
    ensures
        ok <==> (1 <= min_length <= length <= num_rows),
{
    1 <= min_length && min_length <= length && length <= num_rows
}

/// The moving minimum of every column: at each row, the smallest valid
/// value of the window ending there, missing until the window holds
/// `min_length` valid observations.
pub fn move_min(
    input: &Vec<Vec<Option<u64>>>,
    length: usize,
    min_length: usize,
    parallel: bool,
) -> (out: Vec<Vec<Option<u64>>>)
    requires
        1 <= min_length <= length,
        forall|c: int| 0 <= c < input@.len() ==> length <= #[trigger] input@[c]@.len(),
    ensures
        out@.len() == input@.len(),
        forall|c: int|
            0 <= c < out@.len() ==> #[trigger] out@[c]@ == ext_col(
                input@[c]@,
                length as int,
                min_length as int,
                true,
            ),
{
    move_deque_template(input, length, min_length, true, parallel)
}

/// The moving maximum of every column, the mirror of [`move_min`].
pub fn move_max(
    input: &Vec<Vec<Option<u64>>>,
    length: usize,
    min_length: usize,
    parallel: bool,
) -> (out: Vec<Vec<Option<u64>>>)
    requires
        1 <= min_length <= length,
        forall|c: int| 0 <= c < input@.len() ==> length <= #[trigger] input@[c]@.len(),
    ensures
        out@.len() == input@.len(),
        forall|c: int|
            0 <= c < out@.len() ==> #[trigger] out@[c]@ == ext_col(
                input@[c]@,
                length as int,
                min_length as int,
                false,
            ),
{
    move_deque_template(input, length, min_length, false, parallel)
}

/// The aggregate minimum of every column, broadcast over the column;
/// missing only where the whole column is missing.
pub fn agg_min(input: &Vec<Vec<Option<u64>>>, parallel: bool) -> (out: Vec<Vec<Option<u64>>>)
    ensures
        out@.len() == input@.len(),
        forall|c: int| 0 <= c < out@.len() ==> #[trigger] out@[c]@.len() == input@[c]@.len(),
        forall|c: int, r: int|
            0 <= c < out@.len() && 0 <= r < out@[c]@.len() ==> #[trigger] out@[c]@[r]
                == win_ext_val(input@[c]@, 0, input@[c]@.len() as int, true),
{
    agg_deque_template(input, true, parallel)
}

/// The aggregate maximum of every column, the mirror of [`agg_min`].
pub fn agg_max(input: &Vec<Vec<Option<u64>>>, parallel: bool) -> (out: Vec<Vec<Option<u64>>>)
    ensures
        out@.len() == input@.len(),
        forall|c: int| 0 <= c < out@.len() ==> #[trigger] out@[c]@.len() == input@[c]@.len(),
        forall|c: int, r: int|
            0 <= c < out@.len() && 0 <= r < out@[c]@.len() ==> #[trigger] out@[c]@[r]
                == win_ext_val(input@[c]@, 0, input@[c]@.len() as int, false),
{
    agg_deque_template(input, false, parallel)
}

} // verus!
