use compiler_rs::normalize::layout_input_fits;
use compiler_rs::{looks_like_unix_timestamp, normalize_layout, PointStamp};

fn stamps(points: &[(i64, f64)]) -> Vec<PointStamp> {
    points
        .iter()
        .map(|(ts_secs, value)| PointStamp { ts_secs: *ts_secs, finite: value.is_finite() })
        .collect()
}

#[test]
fn normalize_sorts_and_dedups_points() {
    let raw = [(120, 2.0), (60, 1.0), (120, 3.0), (180, 4.0)];
    let normalized = normalize_layout(&stamps(&raw)).expect("normalized");
    let values: Vec<f64> = normalized.source_indices.iter().map(|idx| raw[*idx].1).collect();
    assert_eq!(values, vec![1.0, 3.0, 4.0]);
    assert_eq!(normalized.offsets_secs[0], 0);
    assert_eq!(normalized.offsets_secs[1], 60);
    assert_eq!(normalized.interval_secs, 60);
}

#[test]
fn normalize_rebases_absolute_timestamps() {
    let raw = [(1_743_415_200, 100.0), (1_743_415_260, 101.0), (1_743_415_320, 102.0)];
    let normalized = normalize_layout(&stamps(&raw)).expect("normalized");
    assert_eq!(normalized.offsets_secs, vec![0, 60, 120]);
    assert_eq!(normalized.window_secs, 120);
    assert_eq!(normalized.window_start_ts_secs, Some(1_743_415_200));
}

#[test]
fn normalize_refuses_fewer_than_three_timestamps() {
    let raw = [(0, 1.0), (60, 2.0), (60, 3.0), (0, 4.0)];
    assert!(normalize_layout(&stamps(&raw)).is_none());
    assert!(normalize_layout(&[]).is_none());
}

#[test]
fn normalize_drops_non_finite_values() {
    let raw = [(0, 1.0), (60, f64::NAN), (120, 2.0), (180, f64::INFINITY), (240, 3.0)];
    let normalized = normalize_layout(&stamps(&raw)).expect("normalized");
    assert_eq!(normalized.source_indices, vec![0, 2, 4]);
    assert_eq!(normalized.offsets_secs, vec![0, 120, 240]);
    assert_eq!(normalized.interval_secs, 120);
    assert_eq!(normalized.window_start_ts_secs, None);
}

#[test]
fn normalize_refuses_when_non_finite_leaves_too_few() {
    let raw = [(0, 1.0), (60, f64::NAN), (120, 2.0)];
    assert!(normalize_layout(&stamps(&raw)).is_none());
}

#[test]
fn normalize_interval_is_median_gap() {
    let odd = [(0, 1.0), (10, 1.0), (40, 1.0), (100, 1.0)];
    assert_eq!(normalize_layout(&stamps(&odd)).expect("odd").interval_secs, 30);
    let even = [(0, 1.0), (10, 1.0), (30, 1.0), (60, 1.0), (100, 1.0)];
    let normalized = normalize_layout(&stamps(&even)).expect("even");
    assert_eq!(normalized.interval_secs, 25);
    assert_eq!(normalized.window_secs, 100);
}

#[test]
fn normalize_keeps_last_of_repeated_timestamp() {
    let raw = [(30, 1.0), (10, 2.0), (30, 5.0), (20, 3.0), (10, 7.0)];
    let normalized = normalize_layout(&stamps(&raw)).expect("normalized");
    assert_eq!(normalized.source_indices, vec![4, 3, 2]);
    assert_eq!(normalized.offsets_secs, vec![0, 10, 20]);
}

#[test]
fn unix_timestamp_window() {
    assert!(looks_like_unix_timestamp(946_684_800));
    assert!(looks_like_unix_timestamp(4_102_444_800));
    assert!(!looks_like_unix_timestamp(946_684_799));
    assert!(!looks_like_unix_timestamp(0));
}

#[test]
fn normalizing_twice_keeps_the_shape() {
    let raw = [(1_743_415_320, 3.0), (1_743_415_200, 1.0), (1_743_415_500, 4.0), (1_743_415_260, 2.0)];
    let first = normalize_layout(&stamps(&raw)).expect("normalized");
    let again: Vec<PointStamp> =
        first.offsets_secs.iter().map(|offset| PointStamp { ts_secs: *offset, finite: true }).collect();
    let second = normalize_layout(&again).expect("normalized again");
    assert_eq!(second.offsets_secs, first.offsets_secs);
    assert_eq!(second.interval_secs, first.interval_secs);
    assert_eq!(second.window_secs, first.window_secs);
    assert_eq!(second.source_indices, vec![0, 1, 2, 3]);
    assert_eq!(first.window_start_ts_secs, Some(1_743_415_200));
    assert_eq!(second.window_start_ts_secs, None);
}

#[test]
fn layout_input_fits_spots_overflowing_spreads() {
    let wide = [
        PointStamp { ts_secs: i64::MIN, finite: true },
        PointStamp { ts_secs: 0, finite: true },
        PointStamp { ts_secs: i64::MAX, finite: true },
    ];
    assert!(!layout_input_fits(&wide));
    let two_only = [
        PointStamp { ts_secs: i64::MIN, finite: true },
        PointStamp { ts_secs: i64::MAX, finite: true },
    ];
    assert!(layout_input_fits(&two_only));
    let masked = [
        PointStamp { ts_secs: i64::MIN, finite: false },
        PointStamp { ts_secs: 0, finite: true },
        PointStamp { ts_secs: 60, finite: true },
        PointStamp { ts_secs: i64::MAX, finite: true },
    ];
    assert!(layout_input_fits(&masked));
    assert!(layout_input_fits(&stamps(&[(0, 1.0), (60, 2.0), (120, 3.0)])));
}

#[test]
fn reordering_distinct_samples_keeps_the_layout() {
    let raw = [(180, 4.0), (0, 1.0), (60, f64::NAN), (120, 3.0), (60, 2.0)];
    let perm = [3usize, 0, 4, 1, 2];
    let reordered: Vec<(i64, f64)> = perm.iter().map(|index| raw[*index]).collect();
    let first = normalize_layout(&stamps(&raw)).expect("normalized");
    let second = normalize_layout(&stamps(&reordered)).expect("normalized");
    assert_eq!(second.offsets_secs, first.offsets_secs);
    assert_eq!(second.interval_secs, first.interval_secs);
    assert_eq!(second.window_secs, first.window_secs);
    assert_eq!(second.window_start_ts_secs, first.window_start_ts_secs);
    let picked: Vec<usize> = second.source_indices.iter().map(|index| perm[*index]).collect();
    assert_eq!(picked, first.source_indices);
}

#[test]
fn one_sample_per_distinct_finite_timestamp() {
    let raw = [(0, 1.0), (60, 2.0), (0, 3.0), (120, f64::NAN), (180, 4.0), (60, 5.0)];
    let layout = normalize_layout(&stamps(&raw)).expect("normalized");
    assert_eq!(layout.source_indices, vec![2, 5, 4]);
    let two_distinct = [(0, 1.0), (60, 2.0), (0, 3.0), (120, f64::NAN)];
    assert!(normalize_layout(&stamps(&two_distinct)).is_none());
}
