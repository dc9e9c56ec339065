use compiler_rs::events::score_greater;
use compiler_rs::{
    collect_analysis_evidence, dedup_events, derive_state, peer_contexts, rank_group_events,
    rank_line_events, sort_events, Event, EventKind, EvidenceItem, PeerContext, StateKind,
};

fn item(label: &str, value: &str) -> EvidenceItem {
    EvidenceItem { label: label.into(), value: value.into() }
}

fn event(kind: EventKind, score_key: u64, start: i64) -> Event {
    Event {
        kind,
        score_key,
        start_ts_secs: start,
        end_ts_secs: start + 60,
        timepoints_ts_secs: vec![],
        evidence: vec![],
        impacted_members: 1,
    }
}

/// The total-order key of a floating-point score.
fn key(score: f64) -> u64 {
    let bits = score.to_bits();
    if bits >> 63 == 1 {
        !bits
    } else {
        bits | (1 << 63)
    }
}

fn kinds(events: &[Event]) -> Vec<EventKind> {
    events.iter().map(|event| event.kind).collect()
}

#[test]
fn sort_by_score_then_priority_then_start() {
    let mut events = vec![
        event(EventKind::Spike, 10, 0),
        event(EventKind::SustainedHigh, 10, 5),
        event(EventKind::Drop, 20, 0),
        event(EventKind::Spike, 10, -5),
    ];
    sort_events(&mut events);
    assert_eq!(
        kinds(&events),
        vec![EventKind::Drop, EventKind::SustainedHigh, EventKind::Spike, EventKind::Spike]
    );
    assert_eq!(events[2].start_ts_secs, -5);
    assert_eq!(events[3].start_ts_secs, 0);
}

#[test]
fn sort_keeps_input_order_of_full_ties() {
    let mut first = event(EventKind::Spike, 7, 0);
    first.impacted_members = 1;
    let mut second = event(EventKind::Spike, 7, 0);
    second.impacted_members = 2;
    let mut events = vec![first, event(EventKind::Drop, 9, 0), second];
    sort_events(&mut events);
    assert_eq!(events[0].kind, EventKind::Drop);
    assert_eq!(events[1].impacted_members, 1);
    assert_eq!(events[2].impacted_members, 2);
}

#[test]
fn dedup_keeps_first_highest_per_kind() {
    let events = vec![
        event(EventKind::Spike, key(5.0), 0),
        event(EventKind::Drop, key(3.0), 0),
        event(EventKind::Spike, key(9.0), 1),
        event(EventKind::Spike, key(9.0), 2),
    ];
    let deduped = dedup_events(events);
    assert_eq!(kinds(&deduped), vec![EventKind::Spike, EventKind::Drop]);
    assert_eq!(deduped[0].score_key, key(9.0));
    assert_eq!(deduped[0].start_ts_secs, 1);
}

#[test]
fn state_follows_event_kinds() {
    assert_eq!(derive_state(&[]), StateKind::Stable);
    assert_eq!(derive_state(&[event(EventKind::Oscillation, 1, 0)]), StateKind::Volatile);
    assert_eq!(
        derive_state(&[event(EventKind::Oscillation, 1, 0), event(EventKind::SustainedLow, 1, 0)]),
        StateKind::Depressed
    );
    assert_eq!(
        derive_state(&[event(EventKind::SustainedLow, 1, 0), event(EventKind::SustainedHigh, 1, 0)]),
        StateKind::Elevated
    );
}

#[test]
fn evidence_takes_two_per_event_and_skips_repeated_labels() {
    let mut first = event(EventKind::Spike, 1, 0);
    first.evidence = vec![item("a", "1"), item("b", "2"), item("c", "3")];
    let mut second = event(EventKind::Drop, 1, 0);
    second.evidence = vec![item("b", "9"), item("d", "4")];
    let evidence = collect_analysis_evidence(&[first, second]);
    assert_eq!(evidence, vec![item("a", "1"), item("b", "2"), item("d", "4")]);
}

#[test]
fn line_state_uses_all_events_group_state_top_three() {
    let events = vec![
        event(EventKind::SustainedHigh, 1, 0),
        event(EventKind::Spike, 10, 0),
        event(EventKind::Drop, 9, 0),
        event(EventKind::RegimeShift, 8, 0),
    ];
    let line = rank_line_events(events.clone());
    assert_eq!(kinds(&line.top_events), vec![EventKind::Spike, EventKind::Drop, EventKind::RegimeShift]);
    assert_eq!(line.state, StateKind::Elevated);
    let group = rank_group_events(events);
    assert_eq!(kinds(&group.top_events), vec![EventKind::Spike, EventKind::Drop, EventKind::RegimeShift]);
    assert_eq!(group.state, StateKind::Stable);
}

#[test]
fn peer_ranks_descend_by_magnitude() {
    let contexts = peer_contexts(&[5, 9, 5]);
    assert_eq!(
        contexts,
        vec![
            PeerContext { rank: 2, total: 3, percentile: 33 },
            PeerContext { rank: 1, total: 3, percentile: 66 },
            PeerContext { rank: 3, total: 3, percentile: 0 },
        ]
    );
    assert!(peer_contexts(&[]).is_empty());
    let mut ranks: Vec<usize> = peer_contexts(&[3, 1, 4, 1, 5, 9, 2, 6]).iter().map(|c| c.rank).collect();
    ranks.sort();
    assert_eq!(ranks, (1..=8).collect::<Vec<_>>());
}

#[test]
fn deduplicated_events_rank_to_distinct_top_kinds() {
    let raw = vec![
        event(EventKind::Spike, key(3.0), 0),
        event(EventKind::Spike, key(5.0), 10),
        event(EventKind::Drop, key(4.0), 20),
        event(EventKind::RegimeShift, key(4.0), 30),
        event(EventKind::Drop, key(4.5), 40),
        event(EventKind::Oscillation, key(1.0), 50),
    ];
    let ranked = rank_line_events(dedup_events(raw));
    assert_eq!(ranked.top_events.len(), 3);
    assert_eq!(kinds(&ranked.top_events), vec![EventKind::Spike, EventKind::Drop, EventKind::RegimeShift]);
    assert_eq!(ranked.top_events[0].score_key, key(5.0));
    assert_eq!(ranked.top_events[1].start_ts_secs, 40);
}

#[test]
fn dedup_compares_scores_as_floats() {
    let zeros = vec![event(EventKind::Spike, key(-0.0), 0), event(EventKind::Spike, key(0.0), 1)];
    assert_eq!(dedup_events(zeros)[0].start_ts_secs, 0);
    let after_nan = vec![event(EventKind::Drop, key(f64::NAN), 0), event(EventKind::Drop, key(7.0), 1)];
    assert_eq!(dedup_events(after_nan)[0].start_ts_secs, 0);
    let nan_later = vec![event(EventKind::Drop, key(1.0), 0), event(EventKind::Drop, key(f64::NAN), 1)];
    assert_eq!(dedup_events(nan_later)[0].start_ts_secs, 0);
    let negative = vec![event(EventKind::Drop, key(-2.0), 0), event(EventKind::Drop, key(-1.0), 1)];
    assert_eq!(dedup_events(negative)[0].start_ts_secs, 1);
}

#[test]
fn score_keys_compare_like_floats() {
    let samples = [f64::NEG_INFINITY, -3.5, -0.0, 0.0, 1e-300, 2.0, f64::INFINITY, f64::NAN, -f64::NAN];
    for a in samples {
        for b in samples {
            assert_eq!(score_greater(key(a), key(b)), a > b, "{a} > {b}");
        }
    }
}

#[test]
fn dedup_keeps_the_best_of_each_kind_in_priority_order() {
    let events = vec![
        event(EventKind::Drop, key(2.0), 0),
        event(EventKind::Oscillation, key(1.0), 10),
        event(EventKind::Spike, key(4.0), 20),
        event(EventKind::Drop, key(6.0), 30),
        event(EventKind::Drop, key(6.0), 40),
        event(EventKind::Spike, key(-0.5), 50),
    ];
    let deduped = dedup_events(events);
    assert_eq!(kinds(&deduped), vec![EventKind::Spike, EventKind::Drop, EventKind::Oscillation]);
    assert_eq!(deduped[0].start_ts_secs, 20);
    assert_eq!(deduped[1].start_ts_secs, 30);
    assert_eq!(deduped[2].start_ts_secs, 10);
}
