use kanban_stale_cards::time::{format_duration, parse_iso8601_utc};

#[test]
fn parses_export_timestamps() {
    assert_eq!(parse_iso8601_utc("1970-01-01T00:00:00.000Z"), Some(0));
    assert_eq!(parse_iso8601_utc("2024-01-15T09:30:00.000Z"), Some(1705311000));
    assert_eq!(parse_iso8601_utc("2000-03-01T00:00:00Z"), Some(951868800));
    assert_eq!(parse_iso8601_utc("2024-02-29T12:00:00Z"), Some(1709208000));
    assert_eq!(parse_iso8601_utc("  2024-01-15T09:30:00  "), Some(1705311000));
    assert_eq!(parse_iso8601_utc("2024-01-15T09:30:00.999Z"), Some(1705311000));
    assert_eq!(parse_iso8601_utc("+2024-01-15T09:30:00Z"), Some(1705311000));
}

#[test]
fn lenient_in_the_same_ways() {
    // day 31 of a short month runs into the next month
    assert_eq!(parse_iso8601_utc("2023-02-31T00:00:00Z"), parse_iso8601_utc("2023-03-03T00:00:00Z"));
    // out-of-range hours and negative fields are plain arithmetic
    assert_eq!(parse_iso8601_utc("1970-01-01T25:00:00Z"), Some(90000));
    assert_eq!(parse_iso8601_utc("1970-01-02T-1:00:00Z"), Some(82800));
    // extra fields are ignored
    assert_eq!(parse_iso8601_utc("1970-01-01-07T00:00:05:99Z"), Some(5));
}

#[test]
fn rejects_malformed_timestamps() {
    assert_eq!(parse_iso8601_utc(""), None);
    assert_eq!(parse_iso8601_utc("2024-01-15"), None);
    assert_eq!(parse_iso8601_utc("2024-13-15T00:00:00Z"), None);
    assert_eq!(parse_iso8601_utc("2024-00-15T00:00:00Z"), None);
    assert_eq!(parse_iso8601_utc("2024-01-32T00:00:00Z"), None);
    assert_eq!(parse_iso8601_utc("2024-01-00T00:00:00Z"), None);
    assert_eq!(parse_iso8601_utc("2024-01T00:00:00Z"), None);
    assert_eq!(parse_iso8601_utc("2024-01-15T00:00Z"), None);
    assert_eq!(parse_iso8601_utc("2024-01-15T0a:00:00Z"), None);
    assert_eq!(parse_iso8601_utc("1969-12-31T23:59:59Z"), None);
    assert_eq!(parse_iso8601_utc("2024-01-15T00:00:00ZZ"), None);
    assert_eq!(parse_iso8601_utc("99999999999999999999-01-01T00:00:00Z"), None);
}

#[test]
fn formats_durations() {
    assert_eq!(format_duration(0), "0m");
    assert_eq!(format_duration(59), "0m");
    assert_eq!(format_duration(60), "1m");
    assert_eq!(format_duration(3_599), "59m");
    assert_eq!(format_duration(3_600), "1h 0m");
    assert_eq!(format_duration(7_380), "2h 3m");
    assert_eq!(format_duration(86_400), "1d 0h");
    assert_eq!(format_duration(1_234_000), "14d 6h");
    assert_eq!(format_duration(530_000), "6d 3h");
    assert_eq!(format_duration(-5), "0m");
    assert_eq!(format_duration(i64::MIN), format_duration(0));
    assert_eq!(format_duration(i64::MAX), "106751991167300d 15h");
}

fn day(s: &str) -> i64 {
    parse_iso8601_utc(s).unwrap() as i64 / 86_400
}

#[test]
fn consecutive_calendar_days_count_one_apart() {
    assert_eq!(day("1970-01-01T00:00:00Z"), 0);
    assert_eq!(day("2024-03-01T00:00:00Z") - day("2024-02-29T00:00:00Z"), 1);
    assert_eq!(day("2023-03-01T00:00:00Z") - day("2023-02-28T00:00:00Z"), 1);
    assert_eq!(parse_iso8601_utc("1900-03-01T00:00:00Z"), None);
    assert_eq!(day("2000-03-01T00:00:00Z") - day("2000-02-29T00:00:00Z"), 1);
    assert_eq!(day("2024-01-01T00:00:00Z") - day("2023-12-31T00:00:00Z"), 1);
    assert_eq!(day("2024-05-01T00:00:00Z") - day("2024-04-30T00:00:00Z"), 1);
    assert_eq!(day("2025-01-01T00:00:00Z") - day("2024-01-01T00:00:00Z"), 366);
    assert_eq!(day("2101-01-01T00:00:00Z") - day("2100-01-01T00:00:00Z"), 365);
}
