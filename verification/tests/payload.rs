use compiler_rs::payload::projection_fits;
use compiler_rs::{
    project_output, CanonicalAnalysis, Event, EventKind, EvidenceItem, PeerContext, Scope,
    StateKind, TrendKind,
};

fn item(label: &str, value: &str) -> EvidenceItem {
    EvidenceItem { label: label.into(), value: value.into() }
}

fn event(kind: EventKind, start: i64, end: i64, timepoints: Vec<i64>) -> Event {
    Event {
        kind,
        score_key: 0,
        start_ts_secs: start,
        end_ts_secs: end,
        timepoints_ts_secs: timepoints,
        evidence: vec![],
        impacted_members: 1,
    }
}

fn sustained_high_analysis() -> CanonicalAnalysis {
    CanonicalAnalysis {
        schema_version: "v1",
        scope: Scope::Line,
        metric_id: "metric".into(),
        subject_id: "subject".into(),
        window_start_ts_secs: Some(1_774_951_200),
        window_secs: 600,
        state: StateKind::Elevated,
        trend: TrendKind::UpThenFlat,
        top_events: vec![Event {
            kind: EventKind::SustainedHigh,
            score_key: 8,
            start_ts_secs: 0,
            end_ts_secs: 600,
            timepoints_ts_secs: vec![],
            evidence: vec![item("duration", "10m")],
            impacted_members: 1,
        }],
        peer_context: None,
        evidence: vec![item("duration", "10m")],
    }
}

#[test]
fn projection_uses_single_description_field() {
    let analysis = sustained_high_analysis();
    let output = project_output(&analysis);
    assert!(output.description.contains("window=10m"));
    assert!(output.description.contains("problem_range=0m->10m"));
    assert!(output.description.contains("problem_time=2026-03-31 10:00->10:10 UTC"));
    assert!(output.description.contains("top_events=[sustained_high]"));
    assert!(output.description.contains("event_times=[sustained_high@2026-03-31 10:00->10:10 UTC]"));
}

#[test]
fn projection_full_description() {
    let output = project_output(&sustained_high_analysis());
    assert_eq!(
        output.description,
        "window=10m; problem_range=0m->10m; problem_time=2026-03-31 10:00->10:10 UTC; state=elevated; trend=up_then_flat; top_events=[sustained_high]; event_times=[sustained_high@2026-03-31 10:00->10:10 UTC]; evidence=[duration:10m]"
    );
    assert_eq!(output.metric_id, "metric");
    assert_eq!(output.subject_id, "subject");
    assert_eq!(output.scope, Scope::Line);
    assert_eq!(output.schema_version, "v1");
}

#[test]
fn projection_relative_times_and_peer_rank() {
    let analysis = CanonicalAnalysis {
        schema_version: "v1",
        scope: Scope::Group,
        metric_id: "qps".into(),
        subject_id: "select".into(),
        window_start_ts_secs: None,
        window_secs: 3600,
        state: StateKind::Stable,
        trend: TrendKind::Flat,
        top_events: vec![
            event(EventKind::IncreasingTrend, 0, 3600, vec![]),
            event(EventKind::Spike, 600, 720, vec![660, 1200]),
            event(EventKind::RegimeShift, 300, 900, vec![]),
        ],
        peer_context: Some(PeerContext { rank: 2, total: 3, percentile: 33 }),
        evidence: vec![item("a", "1"), item("b", "2"), item("c", "3"), item("d", "4")],
    };
    let output = project_output(&analysis);
    assert_eq!(
        output.description,
        "window=1h; problem_range=5m->15m; problem_time=5m->15m; state=stable; trend=flat; top_events=[increasing_trend, spike, regime_shift]; event_times=[increasing_trend@0m->1h, spike@11m,20m, regime_shift@5m->15m]; rank=2/3; percentile=33; evidence=[a:1, b:2, c:3]"
    );
}

#[test]
fn projection_without_events_spans_the_window() {
    let analysis = CanonicalAnalysis {
        schema_version: "v1",
        scope: Scope::Line,
        metric_id: "m".into(),
        subject_id: "s".into(),
        window_start_ts_secs: None,
        window_secs: 45,
        state: StateKind::Stable,
        trend: TrendKind::Flat,
        top_events: vec![],
        peer_context: None,
        evidence: vec![],
    };
    let output = project_output(&analysis);
    assert_eq!(
        output.description,
        "window=45s; problem_range=0m->45s; problem_time=0m->45s; state=stable; trend=flat; top_events=[]"
    );
}

#[test]
fn projection_absolute_time_points() {
    let mut analysis = sustained_high_analysis();
    analysis.top_events = vec![event(EventKind::Spike, 60, 60, vec![60, 120])];
    let output = project_output(&analysis);
    assert!(output.description.contains("problem_range=1m->1m"));
    assert!(output.description.contains("event_times=[spike@10:01,10:02 UTC]"));
}

#[test]
fn projection_fits_checks_absolute_times() {
    let mut analysis = sustained_high_analysis();
    assert!(projection_fits(&analysis));
    analysis.top_events[0].timepoints_ts_secs = vec![60, i64::MAX];
    assert!(!projection_fits(&analysis));
    analysis.window_start_ts_secs = None;
    assert!(projection_fits(&analysis));
    analysis.window_start_ts_secs = Some(i64::MAX - 10);
    analysis.top_events.clear();
    assert!(!projection_fits(&analysis));
    analysis.window_secs = -5;
    assert!(projection_fits(&analysis));

    let mut trend_far_out = sustained_high_analysis();
    trend_far_out.window_start_ts_secs = Some(1_000);
    trend_far_out.top_events.push(event(EventKind::IncreasingTrend, i64::MAX - 500, i64::MAX, vec![60]));
    assert!(projection_fits(&trend_far_out));
    let description = project_output(&trend_far_out).description;
    assert!(description.contains("increasing_trend@00:17 UTC"), "{description}");
    trend_far_out.top_events[1].timepoints_ts_secs.clear();
    assert!(!projection_fits(&trend_far_out));
}
