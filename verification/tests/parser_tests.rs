use log_rocket::parser::{is_blank_line, is_entry_boundary, LogLevel, LogParser};

#[test]
fn boundary_predicate_in_isolation() {
    // the structured grammar starts an entry
    assert!(is_entry_boundary("01.01.2024 10:00:00.000 *INFO* [t] a b"));
    // the access-log grammar starts an entry
    assert!(is_entry_boundary("10.0.0.1 - - 01/Jan/2024:10:00:00 +0000 x y"));
    // the lightweight timestamp-prefix heuristic starts an entry
    assert!(is_entry_boundary("12.troops marched"));
    assert!(is_entry_boundary("31/Dec partial stamp"));
    // anything else does not
    assert!(!is_entry_boundary("    at com.foo.Bar.run"));
    assert!(!is_entry_boundary("1.2.2024 too short a day"));
    assert!(!is_entry_boundary(""));
}

#[test]
fn blank_line_predicate() {
    assert!(is_blank_line(""));
    assert!(is_blank_line("   \t "));
    assert!(!is_blank_line("  x  "));
    // whitespace is the Unicode class, not just ASCII
    assert!(is_blank_line("\u{a0}\u{2003}\u{3000}"));
}

#[test]
fn unicode_whitespace_separates_fields() {
    let parser = LogParser::new();
    let e = parser.parse_line("01.01.2024\u{a0}10:00:00.000 *INFO* [t] a b", 1);
    assert_eq!(e.level, LogLevel::Info);
    assert!(e.is_error_log);
    assert_eq!(e.timestamp.as_deref(), Some("01.01.2024\u{a0}10:00:00.000"));
}

#[test]
fn structured_line_with_continuation() {
    let parser = LogParser::new();
    let content = "01.01.2024 10:00:00.000 *ERROR* [main] com.foo.Bar boom\n    at com.foo.Bar.run\n";
    let entries = parser.parse_file(content);
    assert_eq!(entries.len(), 1);
    let e = &entries[0];
    assert_eq!(e.line_number, 1);
    assert_eq!(e.level, LogLevel::Error);
    assert_eq!(e.timestamp.as_deref(), Some("01.01.2024 10:00:00.000"));
    assert_eq!(e.thread.as_deref(), Some("main"));
    assert_eq!(e.class.as_deref(), Some("com.foo.Bar"));
    assert!(e.message.starts_with("boom"));
    assert!(e.is_error_log);
    assert_eq!(
        e.raw_line,
        "01.01.2024 10:00:00.000 *ERROR* [main] com.foo.Bar boom\n    at com.foo.Bar.run"
    );
}

#[test]
fn access_log_line() {
    let parser = LogParser::new();
    let line = "10.0.0.1 - - 01/Jan/2024:10:00:00 +0000 \"GET / HTTP/1.1\" 200 512";
    let e = parser.parse_line(line, 1);
    assert_eq!(e.level, LogLevel::Info);
    assert!(!e.is_error_log);
    assert!(e.message.starts_with("10.0.0.1 - - "));
    assert_eq!(e.timestamp.as_deref(), Some("01/Jan/2024:10:00:00 +0000"));
    assert_eq!(e.thread, None);
    assert_eq!(e.class, None);
    assert_eq!(e.raw_line, line);
}

#[test]
fn fallback_line_is_unknown() {
    let parser = LogParser::new();
    let e = parser.parse_line("hello world", 7);
    assert_eq!(e.level, LogLevel::Unknown);
    assert_eq!(e.timestamp, None);
    assert_eq!(e.thread, None);
    assert_eq!(e.class, None);
    assert_eq!(e.message, "hello world");
    assert_eq!(e.raw_line, "hello world");
    assert_eq!(e.line_number, 7);
    assert!(!e.is_error_log);
}

#[test]
fn level_token_is_case_insensitive() {
    let parser = LogParser::new();
    let e = parser.parse_line("01.01.2024 10:00:00.000 *warn* [t] a b", 1);
    assert_eq!(e.level, LogLevel::Warn);
    let e = parser.parse_line("01.01.2024 10:00:00.000 *Debug* [t] a b", 1);
    assert_eq!(e.level, LogLevel::Debug);
    let e = parser.parse_line("01.01.2024 10:00:00.000 *trace* [t] a b", 1);
    assert_eq!(e.level, LogLevel::Trace);
    let e = parser.parse_line("01.01.2024 10:00:00.000 *Info* [t] a b", 1);
    assert_eq!(e.level, LogLevel::Info);
}

#[test]
fn unrecognised_level_token_stays_unknown() {
    let parser = LogParser::new();
    let e = parser.parse_line("01.01.2024 10:00:00.000 *FATAL* [t] a b", 1);
    assert_eq!(e.level, LogLevel::Unknown);
    assert!(e.is_error_log);
    assert_eq!(e.thread.as_deref(), Some("t"));
}

#[test]
fn class_and_message_split_on_first_whitespace_run() {
    let parser = LogParser::new();
    let e = parser.parse_line("01.01.2024 10:00:00.000 *INFO* [t] only", 1);
    assert_eq!(e.class.as_deref(), Some("only"));
    assert_eq!(e.message, "only");
    let e = parser.parse_line("01.01.2024 10:00:00.000 *INFO* [t] a rest of it", 1);
    assert_eq!(e.class.as_deref(), Some("a"));
    assert_eq!(e.message, "rest of it");
}

#[test]
fn orphan_lines_before_first_entry_are_dropped() {
    let parser = LogParser::new();
    let content = "orphan one\norphan two\n01.01.2024 10:00:00.000 *INFO* [t] a b\n";
    let entries = parser.parse_file(content);
    assert_eq!(entries.len(), 1);
    assert_eq!(entries[0].line_number, 3);
}

#[test]
fn blank_line_ends_absorption() {
    let parser = LogParser::new();
    let content = "01.01.2024 10:00:00.000 *INFO* [t] a b\ncont line\n\nlost line\n01.01.2024 10:00:01.000 *INFO* [t] c d\n";
    let entries = parser.parse_file(content);
    assert_eq!(entries.len(), 2);
    assert_eq!(
        entries[0].raw_line,
        "01.01.2024 10:00:00.000 *INFO* [t] a b\ncont line"
    );
    assert_eq!(entries[1].line_number, 5);
}

#[test]
fn heuristic_boundary_starts_entry() {
    let parser = LogParser::new();
    // two digits and a dot: an entry boundary even though neither
    // grammar matches the line
    let content = "12.troops marched\nfollow-up\n";
    let entries = parser.parse_file(content);
    assert_eq!(entries.len(), 1);
    assert_eq!(entries[0].level, LogLevel::Unknown);
    assert_eq!(entries[0].raw_line, "12.troops marched\nfollow-up");
}

#[test]
fn multibyte_text_in_fields() {
    let parser = LogParser::new();
    let e = parser.parse_line("01.01.2024 10:00:00.000 *INFO* [t] über käse gruß", 1);
    assert_eq!(e.level, LogLevel::Info);
    assert_eq!(e.class.as_deref(), Some("über"));
    assert_eq!(e.message, "käse gruß");
    assert_eq!(e.thread.as_deref(), Some("t"));
}

#[test]
fn round_trip_reconstructs_content() {
    let parser = LogParser::new();
    let content = "01.01.2024 10:00:00.000 *ERROR* [m] a boom\n  at one\n  at two\n02.01.2024 11:00:00.000 *INFO* [m] b ok";
    let entries = parser.parse_file(content);
    let joined = entries
        .iter()
        .map(|e| e.raw_line.as_str())
        .collect::<Vec<_>>()
        .join("\n");
    assert_eq!(joined, content);
}

#[test]
fn parsing_twice_is_identical() {
    let parser = LogParser::new();
    let content = "01.01.2024 10:00:00.000 *INFO* [t] a b\nc\n\n10.0.0.1 - - 01/Jan/2024:10:00:00 +0000 x y\n";
    let a = parser.parse_file(content);
    let b = parser.parse_file(content);
    assert_eq!(a.len(), b.len());
    for (x, y) in a.iter().zip(b.iter()) {
        assert_eq!(x.line_number, y.line_number);
        assert_eq!(x.timestamp, y.timestamp);
        assert_eq!(x.level, y.level);
        assert_eq!(x.thread, y.thread);
        assert_eq!(x.class, y.class);
        assert_eq!(x.message, y.message);
        assert_eq!(x.raw_line, y.raw_line);
        assert_eq!(x.is_error_log, y.is_error_log);
    }
}

#[test]
fn crlf_terminators_are_stripped() {
    let parser = LogParser::new();
    let content = "01.01.2024 10:00:00.000 *INFO* [t] a b\r\ncont\r\n";
    let entries = parser.parse_file(content);
    assert_eq!(entries.len(), 1);
    assert_eq!(entries[0].raw_line, "01.01.2024 10:00:00.000 *INFO* [t] a b\ncont");
}

#[test]
fn empty_content_yields_no_entries() {
    let parser = LogParser::new();
    assert_eq!(parser.parse_file("").len(), 0);
    assert_eq!(parser.parse_file("\n\n").len(), 0);
}

#[test]
fn trailing_whitespace_only_rest_is_kept() {
    let parser = LogParser::new();
    // the grammar requires a non-empty remainder: with two or more
    // trailing whitespace characters the last one serves as the rest
    let e = parser.parse_line("01.01.2024 10:00:00.000 *INFO* [t]  ", 1);
    assert!(e.is_error_log);
    assert_eq!(e.message, "");
    // with only one trailing whitespace character nothing remains
    let e = parser.parse_line("01.01.2024 10:00:00.000 *INFO* [t] ", 1);
    assert!(!e.is_error_log);
    assert_eq!(e.level, LogLevel::Unknown);
}
