use rustats::calculators::RankScore;
use rustats::medians::MedianCell;
use rustats::ranking::move_rank;
use rustats::templates::move_template;
use rustats::medians::move_median;
use rustats::move_max;
use rustats::move_min;

/// Order-preserving key for a non-missing double; `None` for NaN.
fn key_of(x: f64) -> Option<u64> {
    if x.is_nan() {
        None
    } else {
        let x = if x == 0.0 { 0.0 } else { x };
        let b = x.to_bits();
        Some(if b & 0x8000_0000_0000_0000 != 0 {
            !b
        } else {
            b | 0x8000_0000_0000_0000
        })
    }
}

fn val_of(k: u64) -> f64 {
    f64::from_bits(if k & 0x8000_0000_0000_0000 != 0 {
        k & 0x7fff_ffff_ffff_ffff
    } else {
        !k
    })
}

/// One column of doubles as a column of cells.
fn col_of(xs: &[f64]) -> Vec<Option<u64>> {
    xs.iter().map(|&x| key_of(x)).collect()
}

fn median_as_f64(c: &MedianCell) -> Option<f64> {
    match c {
        MedianCell::Missing => None,
        MedianCell::Single(k) => Some(val_of(*k)),
        MedianCell::Pair(a, b) => Some((val_of(*a) + val_of(*b)) / 2.0),
    }
}

fn rank_as_f64(c: &Option<RankScore>) -> Option<f64> {
    c.as_ref().map(|rs| rs.num as f64 / rs.den as f64)
}

#[test]
fn move_max_basic_window() {
    let input = vec![col_of(&[1.0, 3.0, 2.0, 5.0, 4.0])];
    let out = move_max(&input, 3, 1, false);
    let expected: Vec<Option<u64>> = col_of(&[1.0, 3.0, 3.0, 5.0, 5.0]);
    assert_eq!(out, vec![expected]);
}

#[test]
fn move_min_with_missing_cells() {
    let nan = f64::NAN;
    let input = vec![col_of(&[1.0, nan, 2.0, nan, 4.0])];
    let out = move_min(&input, 3, 2, false);
    let expected = vec![None, None, key_of(1.0), None, key_of(2.0)];
    assert_eq!(out, vec![expected]);
}

#[test]
fn move_median_growing_then_full_window() {
    let input = vec![col_of(&[1.0, 2.0, 3.0, 4.0, 5.0])];
    let out = move_median(&input, 4, 1, false);
    let medians: Vec<Option<f64>> = out[0].iter().map(median_as_f64).collect();
    assert_eq!(
        medians,
        vec![Some(1.0), Some(1.5), Some(2.0), Some(2.5), Some(3.5)]
    );
}

#[test]
fn move_sum_schedule_and_values() {
    let input = vec![col_of(&[1.0, 2.0, 3.0, 4.0])];
    let plan = move_template(&input, 2, 2, 1, false);
    assert_eq!(plan, vec![vec![None, Some(2), Some(2), Some(2)]]);
    // Run the plain running sum the schedule drives.
    let xs = [1.0f64, 2.0, 3.0, 4.0];
    let mut state = 0.0f64;
    let mut out = vec![f64::NAN; 4];
    for r in 0..4 {
        state += xs[r];
        if r >= 2 {
            state -= xs[r - 2];
        }
        if plan[0][r].is_some() {
            out[r] = state;
        }
    }
    assert!(out[0].is_nan());
    assert_eq!(&out[1..], &[3.0, 5.0, 7.0]);
}

#[test]
fn move_rank_ties_and_extremes() {
    let input = vec![col_of(&[10.0, 20.0, 15.0, 20.0, 5.0])];
    let out = move_rank(&input, 4, 2, false);
    let ranks: Vec<Option<f64>> = out[0].iter().map(rank_as_f64).collect();
    assert_eq!(ranks[0], None);
    assert_eq!(ranks[1], Some(1.0));
    assert_eq!(ranks[2], Some(0.0));
    assert_eq!(ranks[3], Some(2.0 / 3.0));
    assert_eq!(ranks[4], Some(-1.0));
}

#[test]
fn move_sum_full_window_totals_column() {
    let xs = [2.5f64, -1.0, 4.0, 0.5, 3.0];
    let input = vec![col_of(&xs)];
    let plan = move_template(&input, 5, 1, 1, false);
    for r in 0..5 {
        assert_eq!(plan[0][r], Some(r + 1));
    }
    let mut state = 0.0f64;
    let mut last = f64::NAN;
    for r in 0..5 {
        state += xs[r];
        if plan[0][r].is_some() {
            last = state;
        }
    }
    assert_eq!(last, xs.iter().sum::<f64>());
}

#[test]
fn move_mean_constant_column_returns_constant() {
    let v = 7.25f64;
    let xs = [v; 6];
    let input = vec![col_of(&xs)];
    let plan = move_template(&input, 3, 2, 1, false);
    let mut state = 0.0f64;
    for r in 0..6 {
        state += xs[r];
        if r >= 3 {
            state -= xs[r - 3];
        }
        match plan[0][r] {
            None => assert!(r < 1),
            Some(n) => assert_eq!(state / n as f64, v),
        }
    }
}

#[test]
fn warmup_rows_stay_missing() {
    let input = vec![col_of(&[9.0, 8.0, 7.0, 6.0, 5.0, 4.0])];
    let out_min = move_min(&input, 4, 3, false);
    let out_max = move_max(&input, 4, 3, false);
    assert_eq!(out_min[0][0], None);
    assert_eq!(out_min[0][1], None);
    assert_eq!(out_max[0][0], None);
    assert_eq!(out_max[0][1], None);
    assert!(out_min[0][2].is_some());
    let plan = move_template(&input, 4, 3, 2, false);
    assert_eq!(plan[0][0], None);
    assert_eq!(plan[0][1], None);
    assert_eq!(plan[0][2], Some(3));
}

#[test]
fn sparse_column_respects_min_length() {
    let nan = f64::NAN;
    let input = vec![col_of(&[nan, 1.0, nan, nan, 2.0, nan])];
    let out = move_min(&input, 3, 2, false);
    // No window of three rows ever holds two valid cells.
    assert_eq!(out[0], vec![None; 6]);
}

#[test]
fn move_min_matches_brute_force() {
    let nan = f64::NAN;
    let xs = [3.0f64, nan, 1.0, 4.0, nan, nan, 2.0, 8.0, 1.5, nan];
    let input = vec![col_of(&xs)];
    let out = move_min(&input, 4, 1, false);
    for r in 0..xs.len() {
        let lo = if r + 1 >= 4 { r + 1 - 4 } else { 0 };
        let mut best: Option<f64> = None;
        for j in lo..=r {
            if !xs[j].is_nan() {
                best = Some(match best {
                    None => xs[j],
                    Some(m) => m.min(xs[j]),
                });
            }
        }
        assert_eq!(out[0][r].map(val_of), best, "row {}", r);
    }
}

#[test]
fn parallel_and_sequential_move_outputs_are_equal() {
    let nan = f64::NAN;
    let cols = vec![
        col_of(&[1.0, 5.0, nan, 2.0, 2.0, 9.0]),
        col_of(&[nan, nan, 4.0, 4.0, -1.0, 0.0]),
        col_of(&[-3.5, 7.0, 7.0, nan, 8.0, -2.0]),
    ];
    assert_eq!(move_min(&cols, 3, 1, true), move_min(&cols, 3, 1, false));
    assert_eq!(move_max(&cols, 3, 2, true), move_max(&cols, 3, 2, false));
    assert_eq!(
        move_median(&cols, 3, 1, true),
        move_median(&cols, 3, 1, false)
    );
    assert_eq!(move_rank(&cols, 4, 2, true), move_rank(&cols, 4, 2, false));
    assert_eq!(
        move_template(&cols, 3, 1, 2, true),
        move_template(&cols, 3, 1, 2, false)
    );
}

#[test]
fn move_median_with_missing_keeps_eviction_in_step() {
    let nan = f64::NAN;
    let input = vec![col_of(&[5.0, nan, 3.0, nan, 1.0, 7.0])];
    let out = move_median(&input, 3, 1, false);
    let medians: Vec<Option<f64>> = out[0].iter().map(median_as_f64).collect();
    assert_eq!(
        medians,
        vec![
            Some(5.0),
            Some(5.0),
            Some(4.0),
            Some(3.0),
            Some(2.0),
            Some(4.0)
        ]
    );
}

#[test]
fn rank_outputs_stay_within_unit_interval() {
    let nan = f64::NAN;
    let input = vec![col_of(&[2.0, 2.0, nan, 9.0, -4.0, 2.0, 2.0, 0.0])];
    let out = move_rank(&input, 5, 1, false);
    for cell in &out[0] {
        if let Some(rs) = cell {
            assert!(rs.den >= 1);
            assert!(-rs.den <= rs.num && rs.num <= rs.den);
        }
    }
}

#[test]
fn move_median_handles_tied_values() {
    let input = vec![col_of(&[2.0, 2.0, 2.0, 1.0, 1.0])];
    let out = move_median(&input, 5, 5, false);
    let medians: Vec<Option<f64>> = out[0].iter().map(median_as_f64).collect();
    assert_eq!(medians, vec![None, None, None, None, Some(2.0)]);
    let even = vec![col_of(&[3.0, 3.0, 1.0, 1.0])];
    let out_even = move_median(&even, 4, 4, false);
    let medians_even: Vec<Option<f64>> = out_even[0].iter().map(median_as_f64).collect();
    assert_eq!(medians_even, vec![None, None, None, Some(2.0)]);
}

#[test]
fn full_length_window_emits_only_when_saturated() {
    let input = vec![col_of(&[4.0, 2.0, 8.0])];
    let out = move_min(&input, 3, 3, false);
    assert_eq!(out[0], vec![None, None, key_of(2.0)]);
}

#[test]
fn kurtosis_schedule_waits_for_four_observations() {
    let nan = f64::NAN;
    let input = vec![col_of(&[1.0, nan, 2.0, 3.0, 4.0, 5.0])];
    let plan = move_template(&input, 5, 1, 4, false);
    assert_eq!(
        plan[0],
        vec![None, None, None, None, Some(4), Some(4)]
    );
}

#[test]
fn rank_of_lone_observation_is_zero() {
    let input = vec![col_of(&[5.0])];
    let out = move_rank(&input, 1, 1, false);
    assert_eq!(out[0][0], Some(RankScore { num: 0, den: 1 }));
}
