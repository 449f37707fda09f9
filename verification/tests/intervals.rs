use bff::intervals::{
    fuzzy_sandwich_intervals, invert_intervals, merge_intervals, merge_sorted_interval_pair,
    sort_intervals,
};
use bff::ratio::Threshold;

#[test]
fn merge_coalesces_overlapping_and_adjacent() {
    let merged = merge_intervals(vec![(5, 7), (0, 2), (2, 3), (6, 9), (20, 21)], false);
    assert_eq!(merged, vec![(0, 3), (5, 9), (20, 21)]);
}

#[test]
fn merge_sorted_takes_the_larger_end() {
    let merged = merge_intervals(vec![(0, 10), (1, 2), (3, 4)], true);
    assert_eq!(merged, vec![(0, 10)]);
}

#[test]
fn merge_of_nothing_is_nothing() {
    assert_eq!(merge_intervals(Vec::new(), false), Vec::<(usize, usize)>::new());
}

#[test]
fn sort_is_stable() {
    let sorted = sort_intervals(&vec![(3, 9), (1, 5), (3, 4), (1, 2)]);
    assert_eq!(sorted, vec![(1, 5), (1, 2), (3, 9), (3, 4)]);
}

#[test]
fn merge_pair_interleaves_then_coalesces() {
    let merged = merge_sorted_interval_pair(vec![(0, 3), (10, 13)], vec![(2, 5), (20, 22)]);
    assert_eq!(merged, vec![(0, 5), (10, 13), (20, 22)]);
}

#[test]
fn invert_gives_the_gaps() {
    let (kept, gaps) = invert_intervals(vec![(0, 4), (6, 8)], true, 10);
    assert_eq!(kept, vec![(0, 4), (6, 8)]);
    assert_eq!(gaps, vec![(4, 6), (8, 10)]);
}

#[test]
fn invert_of_nothing_is_everything() {
    let (kept, gaps) = invert_intervals(Vec::new(), true, 7);
    assert!(kept.is_empty());
    assert_eq!(gaps, vec![(0, 7)]);
}

#[test]
fn invert_with_leading_gap_and_full_tail() {
    let (_, gaps) = invert_intervals(vec![(6, 10), (2, 3)], false, 10);
    assert_eq!(gaps, vec![(0, 2), (3, 6)]);
}

#[test]
fn merge_and_complement_partition_the_universe() {
    let max_len = 30;
    let merged = merge_intervals(vec![(12, 15), (3, 8), (7, 9), (29, 30), (15, 16)], false);
    let (kept, gaps) = invert_intervals(merged.clone(), true, max_len);
    let complement = merge_intervals(gaps, true);
    for x in 0..max_len + 5 {
        let in_kept = kept.iter().any(|&(s, e)| s <= x && x < e);
        let in_complement = complement.iter().any(|&(s, e)| s <= x && x < e);
        assert_eq!(in_kept || in_complement, x < max_len);
        assert!(!(in_kept && in_complement));
    }
}

#[test]
fn fuzzy_sandwich_joins_across_a_small_gap() {
    let threshold = Threshold::new(95, 100).unwrap();
    let joined = fuzzy_sandwich_intervals(&vec![(0, 9), (10, 20)], true, threshold);
    assert_eq!(joined, vec![(0, 20)]);
}

#[test]
fn fuzzy_sandwich_keeps_apart_at_threshold_one() {
    let threshold = Threshold::new(1, 1).unwrap();
    let kept = fuzzy_sandwich_intervals(&vec![(0, 9), (10, 20)], true, threshold);
    assert_eq!(kept, vec![(0, 9), (10, 20)]);
}

#[test]
fn fuzzy_sandwich_backward_comes_in_scan_order() {
    let threshold = Threshold::new(1, 1).unwrap();
    let kept = fuzzy_sandwich_intervals(&vec![(0, 3), (10, 13)], false, threshold);
    assert_eq!(kept, vec![(10, 13), (0, 3)]);
}

#[test]
fn fuzzy_sandwich_weight_counts_absorbed_widths_only() {
    let threshold = Threshold::new(1, 2).unwrap();
    // (0,1)+(3,4): weight 2 of width 4 reaches a half; then (9,10): weight 3 of width 10 does not.
    let spans = fuzzy_sandwich_intervals(&vec![(0, 1), (3, 4), (9, 10)], true, threshold);
    assert_eq!(spans, vec![(0, 4), (9, 10)]);
}

#[test]
fn threshold_comparisons_are_exact() {
    let t = Threshold::new(4, 5).unwrap();
    assert!(!t.exceeded_by(4, 5));
    assert!(t.reached_by(4, 5));
    assert!(t.exceeded_by(5, 5));
    assert!(!t.exceeded_by(0, 0));
    assert!(!t.reached_by(0, 0));
    assert!(Threshold::new(1, 0).is_none());
    assert!(!Threshold::from_percent(100).less_than_one());
    assert!(Threshold::from_percent(80).less_than_one());
}

#[test]
fn fuzzy_sandwich_is_greedy() {
    // a lower threshold lets the first two join, and then the third stays apart;
    // a higher one keeps the first apart and joins the other two
    let v = vec![(0, 1), (51, 151), (211, 311)];
    let low = fuzzy_sandwich_intervals(&v, true, Threshold::new(66, 100).unwrap());
    let high = fuzzy_sandwich_intervals(&v, true, Threshold::new(70, 100).unwrap());
    assert_eq!(low, vec![(0, 151), (211, 311)]);
    assert_eq!(high, vec![(0, 1), (51, 311)]);
}

#[test]
fn fuzzy_sandwich_covers_the_input_and_no_more_at_one() {
    let v = vec![(0, 3), (3, 5), (9, 12), (30, 31)];
    for (num, den) in [(1, 10), (1, 2), (9, 10), (1, 1), (3, 2)] {
        let t = Threshold::new(num, den).unwrap();
        for forward in [true, false] {
            let out = fuzzy_sandwich_intervals(&v, forward, t);
            for x in 0..40 {
                let before = v.iter().any(|&(s, e)| s <= x && x < e);
                let after = out.iter().any(|&(s, e)| s <= x && x < e);
                assert!(!before || after);
                if num >= den && forward {
                    assert_eq!(before, after);
                }
            }
        }
    }
    let one = Threshold::new(1, 1).unwrap();
    assert_eq!(fuzzy_sandwich_intervals(&v, true, one), vec![(0, 5), (9, 12), (30, 31)]);
}

#[test]
fn thresholds_are_read_from_decimal_numbers() {
    let t = Threshold::from_decimal("0.80").unwrap();
    assert_eq!(t, Threshold::new(80, 100).unwrap());
    assert!(t.reached_by(4, 5));
    assert!(!t.exceeded_by(4, 5));
    assert_eq!(Threshold::from_decimal("1"), Threshold::new(1, 1));
    assert_eq!(Threshold::from_decimal(".5"), Threshold::new(5, 10));
    assert_eq!(Threshold::from_decimal("2."), Threshold::new(2, 1));
    assert_eq!(Threshold::from_decimal("007.250"), Threshold::new(7250, 1000));
    assert_eq!(
        Threshold::from_decimal("0.99999999999999999"),
        Threshold::new(99_999_999_999_999_999, 100_000_000_000_000_000)
    );
    for bad in ["", ".", "1.2.3", "-0.5", "0,5", "1e3", " 1", "0.9999999999999999999"] {
        assert!(Threshold::from_decimal(bad).is_none(), "{}", bad);
    }
}
