use log_rocket::filter::{compute_visible, export_visible, LevelFilter};
use log_rocket::parser::{LogLevel, LogParser};
use log_rocket::search::SearchState;

#[test]
fn neutral_filter_shows_everything() {
    let parser = LogParser::new();
    let content = "01.01.2024 10:00:00.000 *ERROR* [m] a boom\n01.01.2024 10:00:01.000 *INFO* [m] b x\nplain\n02.02.2024 stray\n";
    let entries = parser.parse_file(content);
    assert!(entries.len() >= 3);
    let enabled = LevelFilter::all();
    let matches: Vec<usize> = Vec::new();
    let visible = compute_visible(&entries, &enabled, &matches, false, true);
    let expected: Vec<usize> = (0..entries.len()).collect();
    assert_eq!(visible, expected);
}

#[test]
fn level_filter_hides_disabled_levels() {
    let parser = LogParser::new();
    let content = "01.01.2024 10:00:00.000 *ERROR* [m] a boom\n01.01.2024 10:00:01.000 *INFO* [m] b x\n01.01.2024 10:00:02.000 *DEBUG* [m] c y\n";
    let entries = parser.parse_file(content);
    let mut enabled = LevelFilter::all();
    enabled.set(LogLevel::Info, false);
    let matches: Vec<usize> = Vec::new();
    let visible = compute_visible(&entries, &enabled, &matches, false, false);
    assert_eq!(visible, vec![0, 2]);
}

#[test]
fn show_only_matches_intersects_with_levels() {
    let parser = LogParser::new();
    let content = "01.01.2024 10:00:00.000 *ERROR* [m] a boom\n01.01.2024 10:00:01.000 *INFO* [m] b x\n01.01.2024 10:00:02.000 *DEBUG* [m] c y\n";
    let entries = parser.parse_file(content);
    let mut search = SearchState::new();
    search.query = "boom".to_string();
    search.show_only_matches = true;
    search.update_search(&entries);
    let mut enabled = LevelFilter::none();
    enabled.set(LogLevel::Error, true);
    let visible = compute_visible(&entries, &enabled, &search.matches, true, true);
    assert_eq!(visible, vec![0]);
}

#[test]
fn match_only_display_needs_a_live_query() {
    let parser = LogParser::new();
    let content = "01.01.2024 10:00:00.000 *ERROR* [m] a boom\n01.01.2024 10:00:01.000 *INFO* [m] b x\n";
    let entries = parser.parse_file(content);
    let enabled = LevelFilter::all();
    let matches: Vec<usize> = Vec::new();
    // show-only-matches set, but the query is empty: nothing is hidden
    let visible = compute_visible(&entries, &enabled, &matches, true, false);
    assert_eq!(visible, vec![0, 1]);
    // with a live query the same empty match set hides everything
    let visible = compute_visible(&entries, &enabled, &matches, true, true);
    assert!(visible.is_empty());
}

#[test]
fn level_filter_set_and_contains() {
    let mut f = LevelFilter::none();
    assert!(!f.contains(LogLevel::Warn));
    f.set(LogLevel::Warn, true);
    assert!(f.contains(LogLevel::Warn));
    assert!(!f.contains(LogLevel::Error));
    f.set(LogLevel::Warn, false);
    assert!(!f.contains(LogLevel::Warn));
    assert!(LevelFilter::all().contains(LogLevel::Unknown));
}

#[test]
fn export_joins_visible_raw_lines() {
    let parser = LogParser::new();
    let content = "01.01.2024 10:00:00.000 *ERROR* [m] a boom\n  trace\n01.01.2024 10:00:01.000 *INFO* [m] b x\n";
    let entries = parser.parse_file(content);
    assert_eq!(entries.len(), 2);
    let visible = vec![0usize, 1usize];
    let out = export_visible(&entries, &visible);
    assert_eq!(
        out,
        "01.01.2024 10:00:00.000 *ERROR* [m] a boom\n  trace\n01.01.2024 10:00:01.000 *INFO* [m] b x"
    );
    let only_second = vec![1usize];
    assert_eq!(
        export_visible(&entries, &only_second),
        "01.01.2024 10:00:01.000 *INFO* [m] b x"
    );
    let none: Vec<usize> = Vec::new();
    assert_eq!(export_visible(&entries, &none), "");
}
