//! Per-column state: the window bookkeeping, the per-statistic minimum
//! observation counts, the monotonic deque behind the sliding extrema, and
//! the tally set behind the sliding rank.

use vstd::prelude::*;
use crate::window::better;

verus! {

/// Running bookkeeping for one pass over one column: the count of valid
/// observations in the window, the cell being admitted, and the cell (and
/// row) being evicted.
pub struct WindowState {
    pub observations: usize,
    pub current: Option<u64>,
    pub precedent: Option<u64>,
    pub precedent_idx: usize,
}

impl WindowState {
    pub fn new() -> (s: WindowState)
        ensures
            s.observations == 0,
            s.current is None,
            s.precedent is None,
            s.precedent_idx == 0,
    {
        WindowState { observations: 0, current: None, precedent: None, precedent_idx: 0 }
    }

    /// Load the cell admitted at `row` and the cell evicted with it once the
    /// window is full.
    pub fn refresh(&mut self, input_col: &Vec<Option<u64>>, row: usize, length: usize)
        requires
            length <= row < input_col@.len(),
        ensures
            final(self).current == input_col@[row as int],
            final(self).precedent_idx == row - length,
            final(self).precedent == input_col@[row - length],
            final(self).observations == old(self).observations,
    {
        self.current = input_col[row];
        self.precedent_idx = row - length;
        self.precedent = input_col[self.precedent_idx];
    }

    /// Admit `current` and evict `precedent`: the observation-count update
    /// shared by every moving pass. The caller applies the matching
    /// accumulator arithmetic beside it.
    pub fn compute_row(&mut self)
        requires
            old(self).current is Some ==> old(self).observations < usize::MAX,
            old(self).precedent is Some ==> old(self).observations + (if old(
                self,
            ).current is Some {
                1int
            } else {
                0int
            }) >= 1,
        ensures
            final(self).observations == old(self).observations + (if old(self).current is Some {
                1int
            } else {
                0int
            }) - (if old(self).precedent is Some {
                1int
            } else {
                0int
            }),
            final(self).current == old(self).current,
            final(self).precedent == old(self).precedent,
            final(self).precedent_idx == old(self).precedent_idx,
    {
        if self.current.is_some() {
            self.observations = self.observations + 1;
        }
        if self.precedent.is_some() {
            self.observations = self.observations - 1;
        }
    }

    /// One deque step: evict `precedent` (dropping the deque front when it
    /// sits at the evicted row), then admit `current` at `row`.
    pub fn compute_deque_row(&mut self, deque: &mut Vec<(u64, usize)>, row: usize, take_min: bool)
        requires
            old(self).precedent is Some ==> old(self).observations >= 1,
            old(self).current is Some ==> old(self).observations < usize::MAX,
        ensures
            final(self).observations == old(self).observations - (if old(
                self,
            ).precedent is Some {
                1int
            } else {
                0int
            }) + (if old(self).current is Some {
                1int
            } else {
                0int
            }),
            final(self).current == old(self).current,
            final(self).precedent == old(self).precedent,
            final(self).precedent_idx == old(self).precedent_idx,
            final(deque)@ == ({
                let d1 = if old(self).precedent is Some {
                    deque_evict_spec(old(deque)@, old(self).precedent_idx)
                } else {
                    old(deque)@
                };
                if old(self).current is Some {
                    deque_add_spec(d1, old(self).current->0, row, take_min)
                } else {
                    d1
                }
            }),
    {
        if self.precedent.is_some() {
            self.observations = self.observations - 1;
            if deque.len() > 0 && deque[0].1 == self.precedent_idx {
                let ghost before = deque@;
                deque.remove(0);
                proof {
                    assert(deque@ =~= before.subrange(1, before.len() as int));
                }
            }
        }
        match self.current {
            Some(v) => {
                self.observations = self.observations + 1;
                if take_min {
                    Min::add_value(deque, v, row);
                } else {
                    Max::add_value(deque, v, row);
                }
            },
            None => (),
        }
    }
}

/// Scalar statistic selectors. Each names the smallest observation count on
/// which its formula is defined; a window with fewer valid cells must yield
/// a missing result whatever `min_length` says.
pub struct Sum;

pub struct Mean;

pub struct Var;

pub struct Stdev;

pub struct Skewness;

pub struct Kurtosis;

impl Sum {
    pub fn min_observations() -> (n: usize)
        ensures
            n == 1,
    {
        1
    }
}

impl Mean {
    pub fn min_observations() -> (n: usize)
        ensures
            n == 1,
    {
        1
    }
}

impl Var {
    pub fn min_observations() -> (n: usize)
        ensures
            n == 2,
    {
        2
    }
}

impl Stdev {
    pub fn min_observations() -> (n: usize)
        ensures
            n == 2,
    {
        2
    }
}

impl Skewness {
    pub fn min_observations() -> (n: usize)
        ensures
            n == 3,
    {
        3
    }
}

impl Kurtosis {
    pub fn min_observations() -> (n: usize)
        ensures
            n == 4,
    {
        4
    }
}

/// The deque after the eviction step for the window slot `pidx`: the front
/// pair leaves exactly when it sits at that row.
pub open spec fn deque_evict_spec(d: Seq<(u64, usize)>, pidx: usize) -> Seq<(u64, usize)> {
    if d.len() > 0 && d[0].1 == pidx {
        d.subrange(1, d.len() as int)
    } else {
        d
    }
}

/// The deque after admitting `(v, idx)`: entries that sort no better than
/// `v` leave from the back, then the pair is appended. `take_min` picks the
/// direction, as in [`better`].
pub open spec fn deque_add_spec(
    d: Seq<(u64, usize)>,
    v: u64,
    idx: usize,
    take_min: bool,
) -> Seq<(u64, usize)>
    decreases d.len(),
{
    if d.len() == 0 {
        seq![(v, idx)]
    } else if !better(take_min, d.last().0, v) {
        deque_add_spec(d.drop_last(), v, idx, take_min)
    } else {
        d.push((v, idx))
    }
}

/// Sliding minimum: the deque keeps value/row pairs in non-decreasing value
/// order, so its front is the window minimum.
pub struct Min;

/// Sliding maximum: the deque keeps value/row pairs in non-increasing value
/// order, so its front is the window maximum.
pub struct Max;

impl Min {
    pub fn new() -> (d: Vec<(u64, usize)>)
        ensures
            d@ == Seq::<(u64, usize)>::empty(),
    {
        Vec::new()
    }

    pub fn add_value(deque: &mut Vec<(u64, usize)>, value: u64, idx: usize)
        ensures
            final(deque)@ == deque_add_spec(old(deque)@, value, idx, true),
    {
        deque_add_loop(deque, value, idx, true);
    }
}

impl Max {
    pub fn new() -> (d: Vec<(u64, usize)>)
        ensures
            d@ == Seq::<(u64, usize)>::empty(),
    {
        Vec::new()
    }

    pub fn add_value(deque: &mut Vec<(u64, usize)>, value: u64, idx: usize)
        ensures
            final(deque)@ == deque_add_spec(old(deque)@, value, idx, false),
    {
        deque_add_loop(deque, value, idx, false);
    }
}

/// A rank result as an exact rational: `num / den`, with `den >= 1` and
/// `-den <= num <= den`, so the quotient lies in `[-1, +1]`.
#[derive(Clone, Copy, Debug, PartialEq, Eq, Structural)]
pub struct RankScore {
    pub num: i128,
    pub den: i128,
}

/// The rank of a focal value inside its window, as the exact rational
/// `(greater + equal - valid) / (valid - 1)`; a window holding only the
/// focal observation ranks `0 / 1`.
pub open spec fn rank_score(greater: int, equal: int, valid: int) -> RankScore {
    if valid <= 1 {
        RankScore { num: 0, den: 1 }
    } else {
        RankScore { num: (greater + equal - valid) as i128, den: (valid - 1) as i128 }
    }
}

/// Tallies of one window against a focal value: the focal observation seeds
/// `equal_count` and `valid_count`, and each other valid cell adds two to
/// `greater_count` when the focal value exceeds it, or one to `equal_count`
/// when it ties it.
pub struct Rank {
    pub greater_count: u128,
    pub equal_count: usize,
    pub valid_count: usize,
}

impl Rank {
    /// The tallies always account for the focal observation itself and for
    /// every other valid cell exactly once.
    pub open spec fn wf(&self) -> bool {
        &&& 1 <= self.equal_count
        &&& self.equal_count <= self.valid_count
        &&& self.greater_count <= 2 * (self.valid_count - self.equal_count)
    }

    pub fn new() -> (r: Rank)
        ensures
            r.greater_count == 0,
            r.equal_count == 1,
            r.valid_count == 1,
            r.wf(),
    {
        Rank { greater_count: 0, equal_count: 1, valid_count: 1 }
    }

    /// Tally one other cell of the window against the focal value
    /// `current`; a missing cell changes nothing.
    pub fn add(&mut self, other: Option<u64>, current: u64)
        requires
            old(self).wf(),
            old(self).valid_count < usize::MAX,
        ensures
            final(self).wf(),
            final(self).valid_count == old(self).valid_count + (if other is Some {
                1int
            } else {
                0int
            }),
            final(self).greater_count == old(self).greater_count + (if other matches Some(v)
                && current > v {
                2int
            } else {
                0int
            }),
            final(self).equal_count == old(self).equal_count + (if other == Some(current) {
                1int
            } else {
                0int
            }),
    {
        match other {
            None => (),
            Some(v) => {
                self.valid_count = self.valid_count + 1;
                if current > v {
                    self.greater_count = self.greater_count + 2;
                } else if current == v {
                    self.equal_count = self.equal_count + 1;
                }
            },
        }
    }

    /// Finalise the tallies into the exact rank rational.
    pub fn get(&self) -> (r: RankScore)
        requires
            self.wf(),
        ensures
            r == rank_score(
                self.greater_count as int,
                self.equal_count as int,
                self.valid_count as int,
            ),
    {
        if self.valid_count <= 1 {
            RankScore { num: 0, den: 1 }
        } else {
            let g = self.greater_count as i128;
            let e = self.equal_count as i128;
            let v = self.valid_count as i128;
            RankScore { num: g + e - v, den: v - 1 }
        }
    }
}

fn deque_add_loop(deque: &mut Vec<(u64, usize)>, value: u64, idx: usize, take_min: bool)
    ensures
        final(deque)@ == deque_add_spec(old(deque)@, value, idx, take_min),
{
    loop
        invariant_except_break
            deque_add_spec(deque@, value, idx, take_min) == deque_add_spec(
                old(deque)@,
                value,
                idx,
                take_min,
            ),
        ensures
            deque_add_spec(deque@, value, idx, take_min) == deque_add_spec(
                old(deque)@,
                value,
                idx,
                take_min,
            ),
            deque@.len() == 0 || better(take_min, deque@.last().0, value),
        decreases deque@.len(),
    {
        let n = deque.len();
        if n == 0 {
            break ;
        }
        let back = deque[n - 1];
        let keep = if take_min {
            back.0 <= value
        } else {
            back.0 >= value
        };
        if keep {
            proof {
                assert(better(take_min, deque@.last().0, value));
            }
            break ;
        }
        let ghost before = deque@;
        deque.pop();
        proof {
            assert(deque@ == before.drop_last()) by {
                assert(deque@ == before.subrange(0, before.len() - 1));
                assert(before.drop_last() == before.subrange(0, before.len() - 1));
            }
            assert(deque_add_spec(before, value, idx, take_min) == deque_add_spec(
                before.drop_last(),
                value,
                idx,
                take_min,
            ));
        }
    }
    if deque.len() == 0 {
        proof {
            assert(deque_add_spec(deque@, value, idx, take_min) =~= seq![(value, idx)]);
            assert(deque@.push((value, idx)) =~= seq![(value, idx)]);
        }
    }
    deque.push((value, idx));
}

} // verus!
