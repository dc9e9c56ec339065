use compiler_rs::{format_duration, format_offset};

#[test]
fn duration_formatting() {
    assert_eq!(format_duration(3600), "1h");
    assert_eq!(format_duration(7200), "2h");
    assert_eq!(format_duration(3660), "61m");
    assert_eq!(format_duration(600), "10m");
    assert_eq!(format_duration(119), "1m");
    assert_eq!(format_duration(59), "59s");
    assert_eq!(format_duration(0), "0s");
    assert_eq!(format_duration(-5), "-5s");
}

#[test]
fn offset_formatting() {
    assert_eq!(format_offset(0), "0m");
    assert_eq!(format_offset(-60), "0m");
    assert_eq!(format_offset(45), "45s");
    assert_eq!(format_offset(600), "10m");
}
