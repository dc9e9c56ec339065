use compiler_rs::schema::escape_json;
use compiler_rs::{EventKind, LlmOutput, Scope, StateKind, TrendKind, SCHEMA_VERSION};

#[test]
fn enum_wire_names() {
    assert_eq!(Scope::Line.as_str(), "line");
    assert_eq!(Scope::Group.as_str(), "group");
    assert_eq!(StateKind::Volatile.as_str(), "volatile");
    assert_eq!(TrendKind::DownThenFlat.as_str(), "down_then_flat");
    assert_eq!(EventKind::PeerImbalance.as_str(), "peer_imbalance");
    assert_eq!(EventKind::SustainedHigh.as_str(), "sustained_high");
    assert_eq!(SCHEMA_VERSION, "v1");
}

#[test]
fn event_priorities_are_distinct_and_ordered() {
    let kinds = [
        EventKind::SustainedHigh,
        EventKind::SustainedLow,
        EventKind::Spike,
        EventKind::Drop,
        EventKind::RegimeShift,
        EventKind::Oscillation,
        EventKind::IncreasingTrend,
        EventKind::DecreasingTrend,
        EventKind::PeerImbalance,
    ];
    for (index, kind) in kinds.iter().enumerate() {
        assert_eq!(kind.priority(), index);
    }
}

#[test]
fn json_escaping() {
    assert_eq!(escape_json("a\"b\\c\nd\re\tf"), "a\\\"b\\\\c\\nd\\re\\tf");
    assert_eq!(escape_json("plain é"), "plain é");
}

#[test]
fn llm_output_renders_escaped_json() {
    let output = LlmOutput {
        schema_version: "v1",
        metric_id: "a\"b".into(),
        scope: Scope::Line,
        subject_id: "s".into(),
        description: "x\ny".into(),
    };
    assert_eq!(
        output.to_json_string(),
        r#"{"schema_version":"v1","metric_id":"a\"b","scope":"line","subject_id":"s","description":"x\ny"}"#
    );
}

#[test]
fn escaped_text_reads_back_as_the_original() {
    let original = "quote \" backslash \\ newline \n return \r tab \t end";
    let escaped = escape_json(original);
    assert_eq!(escaped, "quote \\\" backslash \\\\ newline \\n return \\r tab \\t end");
    let decoded: String = serde_json::from_str(&format!("\"{escaped}\"")).expect("valid json string");
    assert_eq!(decoded, original);
}
