use timeplot::entry::parse_log_line;
use timeplot::error::CoreError;
use timeplot::scan::tail_entries;
use timeplot::scan::FILE_SEEK;

/// A log of `n` one-minute-spaced observations, category `c<i>`.
fn sample_log(n: u64) -> String {
    let mut out = String::new();
    for i in 0..n {
        let minutes = i % 60;
        let hours = (i / 60) % 24;
        out.push_str(&format!(
            "2021-06-01_{:02}:{:02} c{} window number {}\n",
            hours, minutes, i, i
        ));
    }
    out
}

/// The reference: parse every line, keep the suffix at or after the
/// cutoff.
fn linear_scan(log: &str, min_time: u64) -> Vec<(u64, String)> {
    log.lines()
        .filter_map(|l| parse_log_line(l).ok())
        .filter(|e| e.epoch_seconds >= min_time)
        .map(|e| (e.epoch_seconds, e.category))
        .collect()
}

#[test]
fn scan_equals_linear_scan_for_any_stride() {
    let log = sample_log(50);
    let base = parse_log_line(log.lines().next().unwrap()).unwrap().epoch_seconds;
    for stride in [1usize, 2, 3, 7, 17, 64, 1000, FILE_SEEK] {
        for cut in [0u64, base, base + 60 * 10, base + 60 * 25 + 30, base + 60 * 49, base + 60 * 90] {
            let got: Vec<(u64, String)> = tail_entries(&log, cut, stride)
                .unwrap()
                .into_iter()
                .map(|e| (e.epoch_seconds, e.category))
                .collect();
            assert_eq!(got, linear_scan(&log, cut), "stride {} cut {}", stride, cut);
        }
    }
}

#[test]
fn scan_returns_whole_log_for_old_cutoff() {
    let log = sample_log(10);
    let got = tail_entries(&log, 0, 3).unwrap();
    assert_eq!(got.len(), 10);
    assert_eq!(got[0].category, "c0");
    assert_eq!(got[9].category, "c9");
}

#[test]
fn scan_returns_nothing_past_the_end() {
    let log = sample_log(10);
    let got = tail_entries(&log, u64::MAX, 4).unwrap();
    assert!(got.is_empty());
}

#[test]
fn scan_of_empty_text_is_empty() {
    let got = tail_entries("", 0, FILE_SEEK).unwrap();
    assert!(got.is_empty());
}

#[test]
fn scan_smaller_than_one_stride_reads_from_start() {
    let log = sample_log(5);
    let got = tail_entries(&log, 0, FILE_SEEK).unwrap();
    assert_eq!(got.len(), 5);
}

#[test]
fn scan_drops_truncated_final_line() {
    let mut log = sample_log(5);
    log.push_str("2021-06-01_00:0");
    let got = tail_entries(&log, 0, FILE_SEEK).unwrap();
    assert_eq!(got.len(), 5);
}

#[test]
fn scan_reports_corrupt_line_in_window() {
    let mut log = sample_log(3);
    log.push_str("garbage here\n");
    log.push_str("2021-06-01_00:10 c10 later\n");
    match tail_entries(&log, 0, FILE_SEEK) {
        Err(CoreError::Format { line }) => assert_eq!(line, "garbage here"),
        other => panic!("expected a format error, got {:?}", other),
    }
}

#[test]
fn scan_skips_corrupt_line_before_window() {
    // The unparsable line stands before any entry at or after the
    // cutoff, so it is never needed and raises no error.
    let mut log = String::from("old garbage\n");
    log.push_str(&sample_log(3));
    let base = parse_log_line("2021-06-01_00:00 x").unwrap().epoch_seconds;
    let got = tail_entries(&log, base, FILE_SEEK).unwrap();
    assert_eq!(got.len(), 3);
}

#[test]
fn scan_entries_carry_categories_in_order() {
    let log = sample_log(30);
    let base = parse_log_line(log.lines().next().unwrap()).unwrap().epoch_seconds;
    let cut = base + 60 * 27;
    let got = tail_entries(&log, cut, 5).unwrap();
    let names: Vec<String> = got.iter().map(|e| e.category.clone()).collect();
    assert_eq!(names, vec!["c27", "c28", "c29"]);
}
