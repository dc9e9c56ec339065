use compiler_rs::{
    project_output, tally_outcomes, CanonicalAnalysis, CaseOutcome, Event, EventKind,
    EvidenceItem, LlmOutput, Scope, StateKind, TrendKind,
};

fn event(kind: EventKind, score_key: u64, start: i64, end: i64) -> Event {
    Event {
        kind,
        score_key,
        start_ts_secs: start,
        end_ts_secs: end,
        timepoints_ts_secs: vec![],
        evidence: vec![EvidenceItem { label: "duration".into(), value: "5m".into() }],
        impacted_members: 1,
    }
}

fn analysis(scope: Scope, subject: &str, kinds: &[EventKind]) -> CanonicalAnalysis {
    CanonicalAnalysis {
        schema_version: "v1",
        scope,
        metric_id: "cpu".into(),
        subject_id: subject.into(),
        window_start_ts_secs: Some(1_774_951_200),
        window_secs: 660,
        state: StateKind::Elevated,
        trend: TrendKind::Increasing,
        top_events: kinds
            .iter()
            .enumerate()
            .map(|(index, kind)| event(*kind, 10 - index as u64, 60 * index as i64, 660))
            .collect(),
        peer_context: None,
        evidence: vec![EvidenceItem { label: "duration".into(), value: "5m".into() }],
    }
}

/// The regression run's verdict, taken on analysed cases: the fixture files and the
/// floating-point analysis that reads them live with the command line, so the cases here are
/// outcomes as that analysis hands them to the library's tally.
#[test]
fn regression_suite_passes() {
    let expected = [EventKind::SustainedHigh, EventKind::RegimeShift, EventKind::Spike];
    let outcomes = vec![
        CaseOutcome {
            case_name: "line-step".into(),
            scope: Scope::Line,
            subject_id: "host-1".into(),
            expected: expected.to_vec(),
            actual: expected.to_vec(),
        },
        CaseOutcome {
            case_name: "group-step".into(),
            scope: Scope::Group,
            subject_id: "cluster-a".into(),
            expected: vec![EventKind::PeerImbalance],
            actual: vec![EventKind::PeerImbalance],
        },
    ];
    let report = tally_outcomes(&outcomes);
    assert!(report.failed.is_empty(), "regression failed: {}", report.render_text());
}

/// The demo's output, taken on analyses: the demo request files and the floating-point analysis
/// live with the command line, so the analyses here are built by hand and projected by the
/// library.
#[test]
fn demo_outputs_are_not_empty() {
    let analyses = vec![
        analysis(Scope::Line, "host-1", &[EventKind::SustainedHigh, EventKind::RegimeShift, EventKind::Spike]),
        analysis(Scope::Line, "host-2", &[EventKind::Spike]),
        analysis(Scope::Group, "cluster-a", &[EventKind::SustainedHigh, EventKind::Spike]),
        analysis(Scope::Group, "cluster-b", &[]),
    ];
    let outputs: Vec<LlmOutput> = analyses.iter().map(project_output).collect();
    assert_eq!(outputs.len(), 4);
    assert!(outputs.iter().all(|output| output.description.starts_with("window=11m; ")));
    assert!(outputs[0]
        .description
        .contains("top_events=[sustained_high, regime_shift, spike]"));
}
