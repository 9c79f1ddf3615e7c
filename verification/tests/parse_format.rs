use timeplot::entry::format_log_line;
use timeplot::entry::parse_log_line;
use timeplot::entry::should_log;
use timeplot::entry::truncate_chars;
use timeplot::error::CoreError;

#[test]
fn parse_simple_line() {
    let e = parse_log_line("2020-01-02_03:04 work Some Window Title").unwrap();
    assert_eq!(e.epoch_seconds, 1577934240);
    assert_eq!(e.category, "work");
}

#[test]
fn parse_line_without_remainder() {
    let e = parse_log_line("2020-01-02_03:04 work").unwrap();
    assert_eq!(e.epoch_seconds, 1577934240);
    assert_eq!(e.category, "work");
}

#[test]
fn parse_epoch_start() {
    let e = parse_log_line("1970-01-01_00:01 x").unwrap();
    assert_eq!(e.epoch_seconds, 60);
    let e = parse_log_line("1970-01-01_00:00 x").unwrap();
    assert_eq!(e.epoch_seconds, 0);
}

#[test]
fn parse_leap_day() {
    let e = parse_log_line("2024-02-29_23:59 fun").unwrap();
    assert_eq!(e.epoch_seconds, 1709251140);
}

#[test]
fn parse_last_supported_minute() {
    let e = parse_log_line("9999-12-31_23:59 end").unwrap();
    assert_eq!(e.epoch_seconds, 253402300740);
}

#[test]
fn parse_agrees_with_chrono() {
    // The verified parser's calendar arithmetic must match chrono's.
    let cases = [
        (1999, 12, 31, 23, 59, "a"),
        (2000, 2, 29, 0, 0, "b"),
        (2100, 3, 1, 12, 30, "c"),
        (2038, 1, 19, 3, 14, "d"),
        (1970, 1, 1, 0, 0, "e"),
        (2400, 2, 29, 6, 7, "f"),
    ];
    for (y, mo, d, h, mi, cat) in cases {
        let line = format!("{:04}-{:02}-{:02}_{:02}:{:02} {}", y, mo, d, h, mi, cat);
        let expected = chrono::TimeZone::with_ymd_and_hms(&chrono::Utc, y, mo, d, h, mi, 0)
            .single()
            .unwrap()
            .timestamp() as u64;
        let e = parse_log_line(&line).unwrap();
        assert_eq!(e.epoch_seconds, expected, "line {}", line);
    }
}

#[test]
fn format_agrees_with_chrono() {
    // The verified formatter's civil fields must match chrono's.
    let epochs = [0u64, 60, 1577934240, 1709251140, 4102444740, 253402300740];
    for e in epochs {
        let expected = chrono::DateTime::<chrono::Utc>::from_timestamp(e as i64, 0)
            .unwrap()
            .format("%Y-%m-%d_%H:%M")
            .to_string();
        assert_eq!(timeplot::date::format_timestamp(e), expected, "epoch {}", e);
    }
}

#[test]
fn parse_rejects_missing_field() {
    assert!(parse_log_line("2020-01-02_03:04").is_err());
    assert!(parse_log_line("").is_err());
}

#[test]
fn parse_rejects_bad_dates() {
    assert!(parse_log_line("2020-13-01_00:00 x").is_err());
    assert!(parse_log_line("2021-02-29_10:00 x").is_err());
    assert!(parse_log_line("2020-00-10_10:00 x").is_err());
    assert!(parse_log_line("2020-01-00_10:00 x").is_err());
    assert!(parse_log_line("2020-01-01_24:00 x").is_err());
    assert!(parse_log_line("2020-01-01_10:60 x").is_err());
    assert!(parse_log_line("1969-12-31_23:59 x").is_err());
}

#[test]
fn parse_rejects_bad_tokens() {
    assert!(parse_log_line("2020-1-02_03:04 x").is_err());
    assert!(parse_log_line("2020/01/02_03:04 x").is_err());
    assert!(parse_log_line("garbage x").is_err());
    assert!(parse_log_line("2020-01-02 03:04 x").is_err());
}

#[test]
fn parse_error_names_the_line() {
    let line = "not a log line";
    match parse_log_line(line) {
        Err(CoreError::Format { line: l }) => assert_eq!(l, line),
        other => panic!("expected a format error, got {:?}", other),
    }
}

#[test]
fn parse_empty_category_between_two_spaces() {
    let e = parse_log_line("2020-01-02_03:04  window title").unwrap();
    assert_eq!(e.category, "");
}

#[test]
fn format_line_and_parse_back() {
    let line = format_log_line(1577934240, "work", "my window");
    assert_eq!(line, "2020-01-02_03:04 work my window");
    let e = parse_log_line(&line).unwrap();
    assert_eq!(e.epoch_seconds, 1577934240);
    assert_eq!(e.category, "work");
}

#[test]
fn format_line_truncates_seconds() {
    let line = format_log_line(1577934240 + 59, "work", "w");
    assert_eq!(line, "2020-01-02_03:04 work w");
}

#[test]
fn format_line_caps_window_title() {
    let long: String = std::iter::repeat('x').take(250).collect();
    let line = format_log_line(60, "cat", &long);
    assert_eq!(line.chars().count(), 16 + 1 + 3 + 1 + 200);
}

#[test]
fn truncate_keeps_short_strings() {
    assert_eq!(truncate_chars("abc", 5), vec!['a', 'b', 'c']);
    assert_eq!(truncate_chars("abcdef", 3), vec!['a', 'b', 'c']);
}

#[test]
fn idle_threshold_is_three_minutes() {
    assert!(should_log(0));
    assert!(should_log(180));
    assert!(!should_log(181));
}
