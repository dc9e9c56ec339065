use compiler_rs::signals::{
    absorb_evidence, dwell_span, flip_count, is_stable_member, leading_window, local_run,
    member_span, member_timepoints, merge_timepoints, peer_imbalance_eligible, tail_run_start,
};
use compiler_rs::{Event, EventKind, EvidenceItem};

fn event(kind: EventKind, start: i64, end: i64, timepoints: Vec<i64>) -> Event {
    Event {
        kind,
        score_key: 0,
        start_ts_secs: start,
        end_ts_secs: end,
        timepoints_ts_secs: timepoints,
        evidence: vec![],
        impacted_members: 1,
    }
}

fn item(label: &str, value: &str) -> EvidenceItem {
    EvidenceItem { label: label.into(), value: value.into() }
}

#[test]
fn runs_around_an_index() {
    assert_eq!(local_run(&[false, true, true, true, false], 2), 3);
    assert_eq!(local_run(&[true, false, true], 1), 3);
    assert_eq!(local_run(&[false], 0), 1);
    assert_eq!(local_run(&[true, true, false, false], 3), 1);
}

#[test]
fn runs_at_the_tail() {
    assert_eq!(tail_run_start(&[true, false, true, true]), Some(2));
    assert_eq!(tail_run_start(&[true, true]), Some(0));
    assert_eq!(tail_run_start(&[true, false]), None);
    assert_eq!(tail_run_start(&[]), None);
}

#[test]
fn flips_skip_small_moves() {
    assert_eq!(flip_count(&[1, 0, -1, -1, 1, 0]), 2);
    assert_eq!(flip_count(&[0, 0]), 0);
    assert_eq!(flip_count(&[1, -1, 1, -1]), 3);
    assert_eq!(flip_count(&[]), 0);
}

#[test]
fn leading_window_is_a_third_at_least_three() {
    assert_eq!(leading_window(3), 3);
    assert_eq!(leading_window(11), 3);
    assert_eq!(leading_window(12), 4);
}

#[test]
fn dwell_span_stays_inside() {
    assert_eq!(dwell_span(5, 4, 12), (3, 7));
    assert_eq!(dwell_span(1, 6, 12), (0, 4));
    assert_eq!(dwell_span(10, 6, 12), (7, 11));
}

#[test]
fn stable_members_and_imbalance_gate() {
    assert!(is_stable_member(&[event(EventKind::SustainedHigh, 0, 1, vec![])]));
    assert!(!is_stable_member(&[event(EventKind::Spike, 0, 1, vec![])]));
    assert!(is_stable_member(&[]));
    assert!(peer_imbalance_eligible(3, 3, 2));
    assert!(!peer_imbalance_eligible(3, 3, 1));
    assert!(!peer_imbalance_eligible(1, 3, 3));
    assert!(!peer_imbalance_eligible(3, 1, 1));
}

#[test]
fn member_points_and_span() {
    let events = vec![
        event(EventKind::Spike, 120, 120, vec![]),
        event(EventKind::Spike, 0, 300, vec![240, 60]),
        event(EventKind::Spike, 30, 90, vec![]),
        event(EventKind::Spike, 60, 60, vec![]),
    ];
    assert_eq!(member_timepoints(&events), vec![60, 120, 240]);
    assert_eq!(member_span(&events), (0, 300));
    assert_eq!(merge_timepoints(&[60, 120], &[300, 60, 0]), vec![0, 60, 120, 300]);
}

#[test]
fn evidence_absorbs_new_labels_only() {
    let mut existing = vec![item("affected_lines", "2/2"), item("peak", "+10%")];
    absorb_evidence(&mut existing, &[item("peak", "+20%"), item("dwell", "2pt"), item("other", "x")]);
    assert_eq!(existing, vec![item("affected_lines", "2/2"), item("peak", "+10%"), item("dwell", "2pt")]);
}
