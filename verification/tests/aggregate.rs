use rustats::agg_max;
use rustats::agg_min;
use rustats::calculators::Rank;
use rustats::heaps::Indexed;
use rustats::medians::agg_median;
use rustats::medians::MedianCell;
use rustats::medians::MedianWindow;
use rustats::ranking::agg_rank;
use rustats::templates::agg_template;

/// Order-preserving key for a non-missing double; `None` for NaN.
fn key_of(x: f64) -> Option<u64> {
    if x.is_nan() {
        None
    } else {
        let x = if x == 0.0 { 0.0 } else { x };
        let b = x.to_bits();
        Some(if b & 0x8000_0000_0000_0000 != 0 {
            !b
        } else {
            b | 0x8000_0000_0000_0000
        })
    }
}

fn val_of(k: u64) -> f64 {
    f64::from_bits(if k & 0x8000_0000_0000_0000 != 0 {
        k & 0x7fff_ffff_ffff_ffff
    } else {
        !k
    })
}

fn col_of(xs: &[f64]) -> Vec<Option<u64>> {
    xs.iter().map(|&x| key_of(x)).collect()
}

fn median_as_f64(c: &MedianCell) -> Option<f64> {
    match c {
        MedianCell::Missing => None,
        MedianCell::Single(k) => Some(val_of(*k)),
        MedianCell::Pair(a, b) => Some((val_of(*a) + val_of(*b)) / 2.0),
    }
}

#[test]
fn agg_mean_broadcasts_column_means() {
    let nan = f64::NAN;
    // Rows [[1, x], [2, 4], [x, 6]], handed over column-wise.
    let xs0 = [1.0f64, 2.0, nan];
    let xs1 = [nan, 4.0, 6.0];
    let cols = vec![col_of(&xs0), col_of(&xs1)];
    let plan = agg_template(&cols, 1, true);
    assert_eq!(plan, vec![Some(2), Some(2)]);
    let mut sums = [0.0f64; 2];
    for (c, xs) in [xs0, xs1].iter().enumerate() {
        for &x in xs.iter() {
            if !x.is_nan() {
                sums[c] += x;
            }
        }
    }
    let means: Vec<f64> = (0..2).map(|c| sums[c] / plan[c].unwrap() as f64).collect();
    assert_eq!(means, vec![1.5, 5.0]);
}

#[test]
fn agg_on_single_row_broadcasts_the_value() {
    let cols = vec![col_of(&[42.5])];
    assert_eq!(agg_min(&cols, false), vec![vec![key_of(42.5)]]);
    assert_eq!(agg_max(&cols, false), vec![vec![key_of(42.5)]]);
    let med = agg_median(&cols, false);
    assert_eq!(median_as_f64(&med[0][0]), Some(42.5));
    assert_eq!(agg_template(&cols, 1, false), vec![Some(1)]);
}

#[test]
fn agg_on_all_missing_column_stays_missing() {
    let nan = f64::NAN;
    let cols = vec![col_of(&[nan, nan, nan])];
    assert_eq!(agg_min(&cols, false), vec![vec![None, None, None]]);
    assert_eq!(agg_max(&cols, false), vec![vec![None, None, None]]);
    let med = agg_median(&cols, false);
    assert_eq!(med[0], vec![MedianCell::Missing; 3]);
    assert_eq!(agg_template(&cols, 1, false), vec![None]);
    let ranks = agg_rank(&cols, false);
    assert_eq!(ranks[0], vec![None, None, None]);
}

#[test]
fn agg_template_respects_domain_floors() {
    let nan = f64::NAN;
    let cols = vec![col_of(&[3.0, nan, 4.0])];
    assert_eq!(agg_template(&cols, 1, false), vec![Some(2)]);
    assert_eq!(agg_template(&cols, 2, false), vec![Some(2)]);
    assert_eq!(agg_template(&cols, 3, false), vec![None]);
    assert_eq!(agg_template(&cols, 4, false), vec![None]);
}

#[test]
fn agg_median_even_and_odd_counts() {
    let nan = f64::NAN;
    let odd = vec![col_of(&[9.0, 1.0, nan, 5.0])];
    let med_odd = agg_median(&odd, false);
    assert_eq!(median_as_f64(&med_odd[0][0]), Some(5.0));
    let even = vec![col_of(&[9.0, 1.0, 2.0, 5.0])];
    let med_even = agg_median(&even, false);
    assert_eq!(median_as_f64(&med_even[0][0]), Some(3.5));
}

#[test]
fn agg_rank_places_each_row_in_its_column() {
    let cols = vec![col_of(&[10.0, 20.0, 15.0, 20.0, 5.0])];
    let out = agg_rank(&cols, false);
    let ranks: Vec<Option<f64>> = out[0]
        .iter()
        .map(|c| c.as_ref().map(|rs| rs.num as f64 / rs.den as f64))
        .collect();
    assert_eq!(
        ranks,
        vec![Some(-0.5), Some(0.75), Some(0.0), Some(0.75), Some(-1.0)]
    );
}

#[test]
fn parallel_and_sequential_agg_outputs_are_equal() {
    let nan = f64::NAN;
    let cols = vec![
        col_of(&[1.0, 5.0, nan, 2.0]),
        col_of(&[nan, nan, nan, nan]),
        col_of(&[-3.5, 7.0, 7.0, 0.25]),
    ];
    assert_eq!(agg_min(&cols, true), agg_min(&cols, false));
    assert_eq!(agg_max(&cols, true), agg_max(&cols, false));
    assert_eq!(agg_median(&cols, true), agg_median(&cols, false));
    assert_eq!(agg_rank(&cols, true), agg_rank(&cols, false));
    assert_eq!(agg_template(&cols, 2, true), agg_template(&cols, 2, false));
}

#[test]
fn indexed_heap_pops_in_order_and_tracks_rows() {
    let mut h = Indexed::new(8, 8, true);
    let vals = [(5u64, 0usize), (9, 1), (2, 2), (7, 3), (9, 4)];
    for &(v, r) in vals.iter() {
        h.push(v, r);
    }
    assert_eq!(h.len(), 5);
    assert!(!h.is_empty());
    // Remove one middle element by its row.
    assert!(h.remove(3));
    assert!(!h.remove(3));
    assert!(!h.remove(7));
    let mut drained: Vec<u64> = Vec::new();
    while let Some((v, _)) = h.pop() {
        drained.push(v);
    }
    assert_eq!(drained, vec![9, 9, 5, 2]);
    assert_eq!(h.pop(), None);
}

#[test]
fn min_heap_peeks_smallest() {
    let mut h = Indexed::new(4, 4, false);
    h.push(4, 0);
    h.push(1, 1);
    h.push(3, 2);
    assert_eq!(h.peek().map(|p| p.0), Some(1));
    assert!(h.remove(1));
    assert_eq!(h.peek().map(|p| p.0), Some(3));
}

#[test]
fn median_window_stays_balanced_step_by_step() {
    let nan = f64::NAN;
    let col = col_of(&[4.0, nan, 9.0, 1.0, 6.0, nan, 2.0, 5.0]);
    let mut w = MedianWindow::new(3, col.len());
    for row in 0..col.len() {
        let _ = w.step(&col, row, 3, 1);
        let small = w.small_heap.len();
        let large = w.large_heap.len();
        assert!(large <= small && small <= large + 1, "row {}", row);
        assert_eq!(small + large, w.window.observations);
    }
}

#[test]
fn rank_tallies_follow_focal_comparisons() {
    let mut rank = Rank::new();
    assert_eq!(rank.valid_count, 1);
    rank.add(key_of(3.0), key_of(5.0).unwrap());
    rank.add(key_of(f64::NAN), key_of(5.0).unwrap());
    rank.add(key_of(5.0), key_of(5.0).unwrap());
    rank.add(key_of(8.0), key_of(5.0).unwrap());
    assert_eq!(rank.valid_count, 4);
    let score = rank.get();
    // greater = 2, equal = 2: (2 + 2 - 4) / 3.
    assert_eq!(score.num, 0);
    assert_eq!(score.den, 3);
}
