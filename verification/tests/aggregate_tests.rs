use timeplot::aggregate::aggregate;
use timeplot::aggregate::AggConfig;
use timeplot::aggregate::CategoryRule;
use timeplot::entry::LogEntry;
use timeplot::error::CoreError;
use timeplot::weights::WEIGHT_ONE;

fn entry(t: u64, category: &str) -> LogEntry {
    LogEntry { epoch_seconds: t, category: category.to_string() }
}

fn rule(name: &str, hide: bool, color: &str) -> CategoryRule {
    CategoryRule { name: name.to_string(), hide, color: color.to_string() }
}

fn config(sleep_seconds: u64, smoothing: u64, rules: Vec<CategoryRule>) -> AggConfig {
    AggConfig::new(sleep_seconds, smoothing, rules).unwrap()
}

#[test]
fn rejects_zero_intervals() {
    assert_eq!(AggConfig::new(0, 5, vec![]).unwrap_err(), CoreError::InvalidConfig);
    assert_eq!(AggConfig::new(5, 0, vec![]).unwrap_err(), CoreError::InvalidConfig);
    assert!(AggConfig::new(1, 1, vec![]).is_ok());
}

#[test]
fn empty_input_yields_no_categories() {
    let cfg = config(180, 1000, vec![]);
    let r = aggregate(&vec![], &cfg);
    assert!(r.is_empty());
}

#[test]
fn aggregation_is_idempotent() {
    let entries = vec![
        entry(0, "work"),
        entry(120, "work"),
        entry(300, "personal"),
        entry(2000, "work"),
        entry(2100, "fun"),
    ];
    let r1 = aggregate(&entries, &config(180, 1000, vec![]));
    let r2 = aggregate(&entries, &config(180, 1000, vec![]));
    assert_eq!(r1, r2);
}

#[test]
fn three_entry_scenario() {
    // sleep 180 s, smoothing magnitude 1000 s.
    let entries = vec![entry(0, "work"), entry(120, "work"), entry(300, "personal")];
    let cfg = config(180, 1000, vec![]);
    let r = aggregate(&entries, &cfg);
    assert_eq!(r.len(), 2);
    // Ascending time impact: work was charged only the first interval
    // (120 s); the third entry belongs to another category.
    assert_eq!(r[0].name, "work");
    assert_eq!(r[0].time_impact, 120);
    assert_eq!(r[1].name, "personal");
    assert_eq!(r[1].time_impact, 180);
    // work holds full weight while observed, then decays once.
    assert_eq!(r[0].series, vec![(0, WEIGHT_ONE), (120, WEIGHT_ONE), (300, 954205)]);
    // personal is admitted at the clock of the previous entry with one
    // synthetic zero point, and its final weight is exactly
    // one times (1 - weight_old) at an elapsed time of 180 s.
    assert_eq!(r[1].series, vec![(120, 0), (300, WEIGHT_ONE - 954205)]);
}

#[test]
fn gap_synthesis_writes_decaying_points() {
    // Two observations five sampling intervals apart: four synthetic
    // points at full strides between them, each below the last.
    let entries = vec![entry(0, "a"), entry(900, "a")];
    let cfg = config(180, 1000, vec![]);
    let r = aggregate(&entries, &cfg);
    assert_eq!(r.len(), 1);
    let s = &r[0].series;
    assert_eq!(s.len(), 6);
    assert_eq!(
        *s,
        vec![
            (0, WEIGHT_ONE),
            (180, 954205),
            (360, 868327),
            (540, 790178),
            (720, 719062),
            (900, 748717),
        ]
    );
    for k in 1..5 {
        assert!(s[k].1 <= s[k - 1].1, "synthetic point {} must not rise", k);
    }
}

#[test]
fn weights_stay_within_bounds() {
    let mut entries = Vec::new();
    let cats = ["work", "fun", "skip", "idle", "work", "fun"];
    for i in 0..60u64 {
        entries.push(entry(i * 97, cats[(i % 6) as usize]));
    }
    let cfg = config(120, 777, vec![]);
    let r = aggregate(&entries, &cfg);
    let total = 59 * 97;
    for c in &r {
        assert!(c.time_impact <= total);
        for p in &c.series {
            assert!(p.1 <= WEIGHT_ONE);
        }
    }
}

#[test]
fn impacts_sort_ascending_with_stable_ties() {
    // Impacts: a charged 10, b charged 50, c charged 5.
    let entries = vec![
        entry(0, "a"),
        entry(10, "a"),
        entry(60, "b"),
        entry(65, "c"),
    ];
    let cfg = config(1000, 1000000, vec![]);
    let r = aggregate(&entries, &cfg);
    let order: Vec<(String, u64)> = r.iter().map(|c| (c.name.clone(), c.time_impact)).collect();
    assert_eq!(
        order,
        vec![("c".to_string(), 5), ("a".to_string(), 10), ("b".to_string(), 50)]
    );
}

#[test]
fn equal_impacts_keep_admission_order() {
    let entries = vec![entry(0, "x"), entry(10, "x"), entry(20, "y")];
    // x and y are each charged 10 seconds.
    let cfg = config(1000, 1000000, vec![]);
    let r = aggregate(&entries, &cfg);
    let names: Vec<String> = r.iter().map(|c| c.name.clone()).collect();
    assert_eq!(names, vec!["x".to_string(), "y".to_string()]);
    assert_eq!(r[0].time_impact, r[1].time_impact);
}

#[test]
fn hidden_and_skip_categories_are_excluded() {
    let entries = vec![
        entry(0, "work"),
        entry(60, "secret"),
        entry(120, "skip"),
        entry(180, "work"),
    ];
    let cfg = config(300, 1000, vec![rule("secret", true, "red")]);
    let r = aggregate(&entries, &cfg);
    assert_eq!(r.len(), 1);
    assert_eq!(r[0].name, "work");
}

#[test]
fn colors_come_from_rules_or_default_to_black() {
    let entries = vec![entry(0, "work"), entry(60, "fun")];
    let cfg = config(300, 1000, vec![rule("work", false, "royalblue")]);
    let r = aggregate(&entries, &cfg);
    let work = r.iter().find(|c| c.name == "work").unwrap();
    let fun = r.iter().find(|c| c.name == "fun").unwrap();
    assert_eq!(work.color, "royalblue");
    assert_eq!(fun.color, "black");
}

#[test]
fn first_category_starts_at_its_entry() {
    let entries = vec![entry(500, "solo")];
    let cfg = config(180, 1000, vec![]);
    let r = aggregate(&entries, &cfg);
    assert_eq!(r.len(), 1);
    assert_eq!(r[0].series, vec![(500, WEIGHT_ONE)]);
    assert_eq!(r[0].time_impact, 0);
}

#[test]
fn out_of_order_timestamps_never_move_the_clock_back() {
    let entries = vec![entry(200, "a"), entry(100, "a")];
    let cfg = config(180, 1000, vec![]);
    let r = aggregate(&entries, &cfg);
    assert_eq!(r.len(), 1);
    // The second entry is clamped to the walked clock: no elapsed time,
    // no charge, and the series never steps backwards in time.
    assert_eq!(r[0].time_impact, 0);
    assert_eq!(r[0].series, vec![(200, WEIGHT_ONE), (200, WEIGHT_ONE)]);
}

#[test]
fn duplicate_timestamps_are_harmless() {
    let entries = vec![entry(100, "a"), entry(100, "b")];
    let cfg = config(180, 1000, vec![]);
    let r = aggregate(&entries, &cfg);
    assert_eq!(r.len(), 2);
    for c in &r {
        assert_eq!(c.time_impact, 0);
        for p in &c.series {
            assert!(p.1 <= WEIGHT_ONE);
        }
    }
}

#[test]
fn pipeline_from_log_text_to_series() {
    // The render path end to end: log text, suffix scan, aggregation.
    let mut log = String::new();
    for i in 0..40u64 {
        let cat = if i % 3 == 0 { "work" } else { "fun" };
        log.push_str(&format!("2021-06-01_{:02}:{:02} {} window\n", i / 60, i % 60, cat));
    }
    let base = timeplot::entry::parse_log_line("2021-06-01_00:00 x")
        .unwrap()
        .epoch_seconds;
    let entries = timeplot::scan::tail_entries(&log, base + 60 * 10, 7).unwrap();
    assert_eq!(entries.len(), 30);
    let cfg = config(180, 1000, vec![]);
    let r = aggregate(&entries, &cfg);
    assert_eq!(r.len(), 2);
    assert!(r[0].time_impact <= r[1].time_impact);
    for c in &r {
        for p in &c.series {
            assert!(p.1 <= WEIGHT_ONE);
            assert!(p.0 >= base + 60 * 10);
        }
    }
}
