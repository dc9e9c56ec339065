use compiler_rs::{
    missing_events, render_kinds, tally_outcomes, unexpected_events, CaseOutcome, EventKind,
    RegressionFailure, RegressionReport, Scope, ScopeRegressionSummary,
};

fn outcome(name: &str, scope: Scope, expected: Vec<EventKind>, actual: Vec<EventKind>) -> CaseOutcome {
    CaseOutcome {
        case_name: name.into(),
        scope,
        subject_id: format!("{name}-subject"),
        expected,
        actual,
    }
}

#[test]
fn missing_and_unexpected_kinds() {
    let expected = [EventKind::Spike, EventKind::Drop, EventKind::RegimeShift];
    let actual = [EventKind::RegimeShift, EventKind::Oscillation];
    assert_eq!(missing_events(&expected, &actual), vec![EventKind::Spike, EventKind::Drop]);
    assert_eq!(unexpected_events(&expected, &actual), vec![EventKind::Oscillation]);
    assert!(missing_events(&expected, &expected).is_empty());
}

#[test]
fn kinds_render_as_comma_list() {
    assert_eq!(render_kinds(&[]), "");
    assert_eq!(render_kinds(&[EventKind::Spike]), "spike");
    assert_eq!(
        render_kinds(&[EventKind::SustainedHigh, EventKind::RegimeShift, EventKind::Spike]),
        "sustained_high, regime_shift, spike"
    );
}

#[test]
fn tally_counts_scopes_and_failures() {
    let outcomes = vec![
        outcome("a", Scope::Line, vec![EventKind::Spike], vec![EventKind::Spike]),
        outcome("b", Scope::Group, vec![EventKind::Spike, EventKind::Drop], vec![EventKind::Drop]),
        outcome("c", Scope::Line, vec![EventKind::Drop, EventKind::Spike], vec![EventKind::Spike, EventKind::Drop]),
        outcome("d", Scope::Group, vec![], vec![]),
    ];
    let report = tally_outcomes(&outcomes);
    assert_eq!(report.total, 4);
    assert_eq!(report.passed, 2);
    assert_eq!(report.line_level_top3, ScopeRegressionSummary { total: 2, passed: 1, failed: 1 });
    assert_eq!(report.group_level_top3, ScopeRegressionSummary { total: 2, passed: 1, failed: 1 });
    assert_eq!(report.failed.len(), 2);
    assert_eq!(report.failed[0].case_name, "b");
    assert_eq!(report.failed[0].missing, vec![EventKind::Spike]);
    assert!(report.failed[0].unexpected.is_empty());
    assert_eq!(report.failed[1].case_name, "c");
    assert!(report.failed[1].missing.is_empty());
    assert_eq!(
        report.line_level_top3.total + report.group_level_top3.total,
        report.total
    );
    assert_eq!(report.passed + report.failed.len(), report.total);
}

#[test]
fn report_text_lists_failures() {
    let report = RegressionReport {
        total: 2,
        passed: 1,
        line_level_top3: ScopeRegressionSummary { total: 1, passed: 1, failed: 0 },
        group_level_top3: ScopeRegressionSummary { total: 1, passed: 0, failed: 1 },
        failed: vec![RegressionFailure {
            case_name: "case-b".into(),
            scope: Scope::Group,
            subject_id: "g".into(),
            expected: vec![EventKind::Spike, EventKind::Drop],
            actual: vec![EventKind::Drop],
            missing: vec![EventKind::Spike],
            unexpected: vec![],
        }],
    };
    assert_eq!(
        report.render_text(),
        "regression total=2 passed=1 failed=1\nline_level_top3 total=1 passed=1 failed=0\ngroup_level_top3 total=1 passed=0 failed=1\nFAIL [group] case-b subject=g expected=[spike, drop] actual=[drop] missing=[spike] unexpected=[]"
    );
}

#[test]
fn report_text_when_all_pass() {
    let report = tally_outcomes(&[outcome("a", Scope::Line, vec![EventKind::Spike], vec![EventKind::Spike])]);
    assert_eq!(
        report.render_text(),
        "regression total=1 passed=1 failed=0\nline_level_top3 total=1 passed=1 failed=0\ngroup_level_top3 total=0 passed=0 failed=0\nall regression cases passed"
    );
}
