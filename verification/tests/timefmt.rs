use grepgrep::timefmt::{decimal_string, format_time_ms, seconds_label};

#[test]
fn time_is_formatted_as_minutes_seconds_millis() {
    assert_eq!(format_time_ms(0), "00:00.000");
    assert_eq!(format_time_ms(3_500), "00:03.500");
    assert_eq!(format_time_ms(83_250), "01:23.250");
    assert_eq!(format_time_ms(6_000_001), "100:00.001");
}

#[test]
fn seconds_labels() {
    assert_eq!(seconds_label(0), "0s");
    assert_eq!(seconds_label(45), "45s");
    assert_eq!(seconds_label(60), "1:00");
    assert_eq!(seconds_label(125), "2:05");
}

#[test]
fn decimal_rendering() {
    assert_eq!(decimal_string(0), "0");
    assert_eq!(decimal_string(907), "907");
    assert_eq!(decimal_string(u64::MAX), u64::MAX.to_string());
}
