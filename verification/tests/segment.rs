use compiler_rs::segment::{
    derive_minimum_segment_length, paa_bounds, paa_bounds_fit, regime_spans, segment_arith_check,
    segmentation_plan,
};

#[test]
fn minimum_segment_length_follows_interval_and_window() {
    assert_eq!(derive_minimum_segment_length(60, 660, 12), 4);
    assert_eq!(derive_minimum_segment_length(60, 360, 7), 3);
    assert_eq!(derive_minimum_segment_length(60, 6000, 101), 25);
    assert_eq!(derive_minimum_segment_length(0, 0, 0), 3);
    assert_eq!(derive_minimum_segment_length(60, 60, 100), 4);
}

#[test]
fn segmentation_needs_five_points_and_two_segments() {
    assert_eq!(segmentation_plan(60, 660, 12), Some(4));
    assert_eq!(segmentation_plan(60, 360, 7), Some(3));
    assert_eq!(segmentation_plan(60, 180, 4), None);
    assert_eq!(segmentation_plan(60, 420, 8), Some(4));
    assert_eq!(segmentation_plan(60, 1200, 5), None);
}

#[test]
fn regimes_between_changepoints() {
    assert_eq!(regime_spans(8, &[4]), vec![(0, 4), (4, 8)]);
    assert_eq!(regime_spans(8, &[]), vec![(0, 8)]);
    assert_eq!(regime_spans(8, &[0, 8, 5, 3]), vec![(0, 5), (3, 8)]);
    assert_eq!(regime_spans(10, &[2, 5, 7]), vec![(0, 2), (2, 5), (5, 7), (7, 10)]);
}

#[test]
fn paa_segment_bounds() {
    assert_eq!(paa_bounds(4, 2), vec![(0, 2), (2, 4)]);
    assert_eq!(paa_bounds(5, 3), vec![(0, 1), (1, 3), (3, 5)]);
    assert_eq!(paa_bounds(2, 4), vec![(0, 1), (1, 2)]);
    assert_eq!(paa_bounds(3, 0), vec![(0, 3)]);
    assert!(paa_bounds(0, 4).is_empty());
}

#[test]
fn segment_arithmetic_check() {
    assert!(segment_arith_check(60, 3600));
    assert!(segment_arith_check(-5, -100));
    assert!(!segment_arith_check(i64::MAX / 2, 0));
    assert!(!segment_arith_check((1 << 61) - 1, 0));
    assert!(segment_arith_check(1 << 60, i64::MAX));
    assert!(segment_arith_check(1, i64::MAX - 3));
    assert_eq!(segmentation_plan(i64::MAX / 2, 0, 4), None);
}

#[test]
fn paa_bounds_check() {
    assert!(paa_bounds_fit(10, 4));
    assert!(paa_bounds_fit(0, usize::MAX));
    assert!(!paa_bounds_fit(usize::MAX, 2));
    assert!(paa_bounds_fit(usize::MAX, 1));
    assert!(paa_bounds_fit(usize::MAX, 0));
}

#[test]
fn paa_means_over_segment_bounds() {
    let values = [1.0, 2.0, 3.0, 4.0];
    let means: Vec<f64> = paa_bounds(values.len(), 2)
        .into_iter()
        .map(|(start, end)| values[start..end].iter().sum::<f64>() / (end - start) as f64)
        .collect();
    assert_eq!(means, vec![1.5, 3.5]);
}
