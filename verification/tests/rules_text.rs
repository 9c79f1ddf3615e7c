use timeplot::rules::contains_chars;
use timeplot::rules::get_category;
use timeplot::text::add_to_autostart;
use timeplot::text::day_start;
use timeplot::text::format_caption;
use timeplot::text::format_hours;
use timeplot::text::replace_all;

fn lines(ls: &[&str]) -> Vec<String> {
    ls.iter().map(|l| l.to_string()).collect()
}

#[test]
fn category_of_first_matching_rule() {
    let rules = lines(&["work mail", "fun game", "work editor"]);
    assert_eq!(get_category(&rules, "reading mail now"), "work");
    assert_eq!(get_category(&rules, "a game of chess"), "fun");
    assert_eq!(get_category(&rules, "my editor"), "work");
}

#[test]
fn matching_is_case_insensitive() {
    // Both the window title and the pattern are lowercased before the
    // substring test.
    let rules = lines(&["work GitHub"]);
    assert_eq!(get_category(&rules, "github - browser"), "work");
    assert_eq!(get_category(&rules, "Checking GITHUB issues"), "work");
}

#[test]
fn no_match_yields_skip() {
    let rules = lines(&["work mail"]);
    assert_eq!(get_category(&rules, "something else"), "skip");
    assert_eq!(get_category(&lines(&[]), "anything"), "skip");
}

#[test]
fn comments_and_blank_lines_are_ignored() {
    let rules = lines(&["# work everything", "", "   ", "fun game"]);
    assert_eq!(get_category(&rules, "work everything game"), "fun");
}

#[test]
fn leading_whitespace_is_trimmed() {
    let rules = lines(&["\t  work mail"]);
    assert_eq!(get_category(&rules, "mail client"), "work");
}

#[test]
fn rule_without_pattern_matches_everything() {
    let rules = lines(&["work mail", "idle"]);
    assert_eq!(get_category(&rules, "whatever window"), "idle");
}

#[test]
fn substring_search_finds_inner_needles() {
    let hay: Vec<char> = "abcdef".chars().collect();
    assert!(contains_chars(&hay, &"cde".chars().collect()));
    assert!(contains_chars(&hay, &"".chars().collect()));
    assert!(contains_chars(&hay, &"abcdef".chars().collect()));
    assert!(!contains_chars(&hay, &"cdf".chars().collect()));
    assert!(!contains_chars(&hay, &"abcdefg".chars().collect()));
}

#[test]
fn replace_all_replaces_every_occurrence() {
    assert_eq!(replace_all("a%X%b%X%c", "%X%", "-"), "a-b-c");
    assert_eq!(replace_all("no placeholder", "%X%", "-"), "no placeholder");
    assert_eq!(replace_all("%X%%X%", "%X%", "yz"), "yzyz");
    assert_eq!(replace_all("abc", "", "-"), "abc");
    assert_eq!(replace_all("aaa", "aa", "b"), "ba");
}

#[test]
fn hours_render_as_hours_and_padded_minutes() {
    assert_eq!(format_hours(0), "0:00");
    assert_eq!(format_hours(120), "0:02");
    assert_eq!(format_hours(3600), "1:00");
    assert_eq!(format_hours(7265), "2:01");
    assert_eq!(format_hours(90000), "25:00");
}

#[test]
fn caption_fills_hours_and_category() {
    let caption = format_caption("%category%: %hours%h", "work", 7265);
    assert_eq!(caption, "work: 2:01h");
}

#[test]
fn day_start_is_utc_midnight() {
    // 2020-01-02 03:04 UTC falls back to 2020-01-02 00:00 UTC.
    assert_eq!(day_start(1577934240), 1577923200);
    assert_eq!(day_start(0), 0);
    assert_eq!(day_start(86400), 86400);
    assert_eq!(day_start(86399), 0);
}

#[test]
fn autostart_entry_names_the_executable() {
    let template = "[Desktop Entry]\nType=Application\nExec=%PATH%\nName=TimePlot\n";
    let filled = add_to_autostart(template, "/usr/local/bin/timeplot");
    assert_eq!(
        filled,
        "[Desktop Entry]\nType=Application\nExec=/usr/local/bin/timeplot\nName=TimePlot\n"
    );
}
