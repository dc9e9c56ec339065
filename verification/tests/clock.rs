use compiler_rs::clock::rfc3339_answer;
use compiler_rs::parse_rfc3339;
use compiler_rs::payload::format_absolute_range;

#[test]
fn rfc3339_parses_to_unix_seconds() {
    assert_eq!(parse_rfc3339("2026-03-31T10:04:00Z"), Ok(1_774_951_440));
    assert_eq!(parse_rfc3339("2026-03-31T12:04:00+02:00"), Ok(1_774_951_440));
}

#[test]
fn rfc3339_rejects_other_text() {
    let err = parse_rfc3339("not a time").expect_err("invalid");
    assert!(err.starts_with("invalid RFC3339 timestamp `not a time`: "));
}

#[test]
fn absolute_ranges() {
    assert_eq!(format_absolute_range(1_774_951_200, 1_774_951_800), "2026-03-31 10:00->10:10 UTC");
    assert_eq!(format_absolute_range(1_774_994_400, 1_774_998_000), "2026-03-31 22:00->23:00 UTC");
    assert_eq!(format_absolute_range(1_775_001_540, 1_775_001_660), "2026-03-31 23:59 UTC->2026-04-01 00:01 UTC");
    assert_eq!(format_absolute_range(i64::MAX, 0), format!("{}s->0s", i64::MAX));
}

#[test]
fn rfc3339_answers_name_the_text() {
    assert_eq!(rfc3339_answer("x", Ok(42)), Ok(42));
    assert_eq!(
        rfc3339_answer("2026-13-01", Err("month out of range".to_string())),
        Err("invalid RFC3339 timestamp `2026-13-01`: month out of range".to_string())
    );
}

#[test]
fn rfc3339_tuple_timestamp_parses() {
    let (ts, value): (String, f64) = serde_json::from_str(r#"["2026-03-31T10:04:00Z",116.0]"#).expect("point");
    assert_eq!(parse_rfc3339(&ts), Ok(1_774_951_440));
    assert_eq!(value, 116.0);
}
