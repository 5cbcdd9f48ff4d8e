use log_rocket::parser::{LogEntry, LogParser};
use log_rocket::search::SearchState;

fn entry_of(line: &str, number: usize) -> LogEntry {
    LogParser::new().parse_line(line, number)
}

#[test]
fn plain_search_finds_span() {
    let parser = LogParser::new();
    let content = "01.01.2024 10:00:00.000 *ERROR* [main] com.foo.Bar boom\n    at com.foo.Bar.run\n";
    let entries = parser.parse_file(content);
    let mut search = SearchState::new();
    search.query = "boom".to_string();
    search.case_sensitive = false;
    search.use_regex = false;
    search.update_search(&entries);
    assert_eq!(search.matches, vec![0]);
    assert_eq!(search.current_match, Some(0));
    let expected_pos = entries[0].raw_line.to_lowercase().find("boom").unwrap();
    let positions = search.get_match_positions(0).unwrap();
    assert_eq!(positions, &vec![(expected_pos, expected_pos + 4)]);
}

#[test]
fn case_insensitive_search_folds_text() {
    let entries = vec![entry_of("BOOM happened", 1)];
    let mut search = SearchState::new();
    search.query = "boom".to_string();
    search.update_search(&entries);
    assert_eq!(search.matches, vec![0]);
}

#[test]
fn case_insensitive_search_folds_query() {
    let entries = vec![entry_of("a boom here", 1)];
    let mut search = SearchState::new();
    search.query = "BOOM".to_string();
    search.update_search(&entries);
    assert_eq!(search.matches, vec![0]);
}

#[test]
fn case_sensitive_search_does_not_fold() {
    let entries = vec![entry_of("a boom here", 1)];
    let mut search = SearchState::new();
    search.query = "Boom".to_string();
    search.case_sensitive = true;
    search.update_search(&entries);
    assert!(search.matches.is_empty());
    assert_eq!(search.current_match, None);
    search.query = "boom".to_string();
    search.update_search(&entries);
    assert_eq!(search.matches, vec![0]);
}

#[test]
fn overlapping_occurrences_are_all_recorded() {
    let entries = vec![entry_of("aaa", 1)];
    let mut search = SearchState::new();
    search.query = "aa".to_string();
    search.update_search(&entries);
    assert_eq!(search.matches, vec![0]);
    let positions = search.get_match_positions(0).unwrap();
    assert_eq!(positions, &vec![(0, 2), (1, 3)]);
}

#[test]
fn empty_query_yields_no_matches() {
    let entries = vec![entry_of("anything", 1)];
    let mut search = SearchState::new();
    search.update_search(&entries);
    assert!(search.matches.is_empty());
    assert!(search.match_positions.is_empty());
    assert_eq!(search.current_match, None);
}

#[test]
fn regex_search_finds_spans() {
    let entries = vec![entry_of("error 404 and 500 seen", 1)];
    let mut search = SearchState::new();
    search.query = r"\d+".to_string();
    search.use_regex = true;
    search.update_search(&entries);
    assert_eq!(search.matches, vec![0]);
    let positions = search.get_match_positions(0).unwrap();
    assert_eq!(positions, &vec![(6, 9), (14, 17)]);
}

#[test]
fn regex_case_insensitive_by_default() {
    let entries = vec![entry_of("a BOOM here", 1)];
    let mut search = SearchState::new();
    search.query = "b.om".to_string();
    search.use_regex = true;
    search.update_search(&entries);
    assert_eq!(search.matches, vec![0]);
}

#[test]
fn regex_case_sensitive_respects_case() {
    let entries = vec![entry_of("a BOOM here", 1)];
    let mut search = SearchState::new();
    search.query = "b.om".to_string();
    search.use_regex = true;
    search.case_sensitive = true;
    search.update_search(&entries);
    assert!(search.matches.is_empty());
}

#[test]
fn invalid_regex_yields_no_matches() {
    let entries = vec![entry_of("anything (here)", 1)];
    let mut search = SearchState::new();
    search.query = "(".to_string();
    search.use_regex = true;
    search.update_search(&entries);
    assert!(search.matches.is_empty());
    assert_eq!(search.current_match, None);
}

#[test]
fn plain_search_spans_are_character_offsets() {
    let entries = vec![entry_of("αβ boom", 1)];
    let mut search = SearchState::new();
    search.query = "boom".to_string();
    search.update_search(&entries);
    assert_eq!(search.matches, vec![0]);
    // spans count characters, not bytes: "αβ " is three characters
    let positions = search.get_match_positions(0).unwrap();
    assert_eq!(positions, &vec![(3, 7)]);
}

#[test]
fn folding_handles_non_ascii_letters() {
    let entries = vec![entry_of("ein KÄSE lag da", 1)];
    let mut search = SearchState::new();
    search.query = "käse".to_string();
    search.update_search(&entries);
    assert_eq!(search.matches, vec![0]);
}

#[test]
fn matches_are_in_entry_order() {
    let entries = vec![
        entry_of("boom one", 1),
        entry_of("quiet", 2),
        entry_of("boom two", 3),
    ];
    let mut search = SearchState::new();
    search.query = "boom".to_string();
    search.update_search(&entries);
    assert_eq!(search.matches, vec![0, 2]);
    assert_eq!(search.current_match, Some(0));
}

#[test]
fn next_match_wraps_around() {
    let entries = vec![entry_of("x", 1), entry_of("x", 2), entry_of("x", 3)];
    let mut search = SearchState::new();
    search.query = "x".to_string();
    search.update_search(&entries);
    assert_eq!(search.current_match, Some(0));
    search.next_match();
    assert_eq!(search.current_match, Some(1));
    search.next_match();
    assert_eq!(search.current_match, Some(2));
    search.next_match();
    assert_eq!(search.current_match, Some(0));
}

#[test]
fn prev_match_wraps_around() {
    let entries = vec![entry_of("x", 1), entry_of("x", 2), entry_of("x", 3)];
    let mut search = SearchState::new();
    search.query = "x".to_string();
    search.update_search(&entries);
    assert_eq!(search.current_match, Some(0));
    search.prev_match();
    assert_eq!(search.current_match, Some(2));
    search.prev_match();
    assert_eq!(search.current_match, Some(1));
}

#[test]
fn navigation_on_empty_matches_is_a_no_op() {
    let mut search = SearchState::new();
    search.query = "zzz".to_string();
    search.update_search(&vec![entry_of("abc", 1)]);
    search.next_match();
    assert_eq!(search.current_match, None);
    search.prev_match();
    assert_eq!(search.current_match, None);
}

#[test]
fn current_match_index_and_queries() {
    let entries = vec![
        entry_of("quiet", 1),
        entry_of("boom", 2),
        entry_of("boom again", 3),
    ];
    let mut search = SearchState::new();
    search.query = "boom".to_string();
    search.update_search(&entries);
    assert_eq!(search.get_current_match_index(), Some(1));
    assert!(search.is_match(1));
    assert!(search.is_match(2));
    assert!(!search.is_match(0));
    assert!(search.is_current_match(1));
    assert!(!search.is_current_match(2));
    search.next_match();
    assert_eq!(search.get_current_match_index(), Some(2));
    assert!(search.is_current_match(2));
    assert!(search.get_match_positions(0).is_none());
    assert!(search.get_match_positions(1).is_some());
}
