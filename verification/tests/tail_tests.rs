use log_rocket::parser::{LogEntry, LogLevel, LogParser};
use log_rocket::tail::{
    complete_prefix, modify_event_seen, read_window, LogDocument, WatchEvent,
    LARGE_FILE_THRESHOLD, TAIL_READ_LEN,
};

fn assert_same_entry(a: &LogEntry, b: &LogEntry) {
    assert_eq!(a.line_number, b.line_number);
    assert_eq!(a.timestamp, b.timestamp);
    assert_eq!(a.level, b.level);
    assert_eq!(a.thread, b.thread);
    assert_eq!(a.class, b.class);
    assert_eq!(a.message, b.message);
    assert_eq!(a.raw_line, b.raw_line);
    assert_eq!(a.is_error_log, b.is_error_log);
}

#[test]
fn appending_extends_entries_and_watermark() {
    let parser = LogParser::new();
    let original = "01.01.2024 10:00:00.000 *INFO* [m] a first\n";
    let appended = "01.01.2024 10:00:01.000 *WARN* [m] b second\nplain tail line\n";
    let s = original.len() as u64;
    let t = appended.len() as u64;

    let mut doc = LogDocument::new();
    doc.load(original, s);
    assert_eq!(doc.watermark, s);
    assert_eq!(doc.entries.len(), 1);

    doc.apply_append(appended, s + t);
    assert_eq!(doc.watermark, s + t);
    assert_eq!(doc.entries.len(), 3);

    let base = parser.parse_file(original);
    assert_same_entry(&doc.entries[0], &base[0]);
    let second = parser.parse_line("01.01.2024 10:00:01.000 *WARN* [m] b second", 2);
    assert_same_entry(&doc.entries[1], &second);
    let third = parser.parse_line("plain tail line", 3);
    assert_same_entry(&doc.entries[2], &third);
    assert_eq!(doc.entries[2].level, LogLevel::Unknown);
}

#[test]
fn appended_blank_lines_are_skipped() {
    let mut doc = LogDocument::new();
    doc.load("01.01.2024 10:00:00.000 *INFO* [m] a x\n", 40);
    doc.apply_append("\n   \nreal line\n\n", 60);
    assert_eq!(doc.entries.len(), 2);
    assert_eq!(doc.entries[1].raw_line, "real line");
    assert_eq!(doc.entries[1].line_number, 2);
    assert_eq!(doc.watermark, 60);
}

#[test]
fn appended_lines_are_trimmed_at_the_end() {
    let mut doc = LogDocument::new();
    doc.load("", 0);
    doc.apply_append("padded line   \t\n", 16);
    assert_eq!(doc.entries.len(), 1);
    assert_eq!(doc.entries[0].raw_line, "padded line");
}

#[test]
fn appended_numbering_continues_from_entry_count() {
    let mut doc = LogDocument::new();
    // a multi-line entry: two physical lines, one entry
    doc.load("01.01.2024 10:00:00.000 *INFO* [m] a x\n  continuation\n", 55);
    assert_eq!(doc.entries.len(), 1);
    doc.apply_append("fresh one\nfresh two\n", 75);
    assert_eq!(doc.entries.len(), 3);
    assert_eq!(doc.entries[1].line_number, 2);
    assert_eq!(doc.entries[2].line_number, 3);
}

#[test]
fn complete_prefix_stops_at_the_last_newline() {
    assert_eq!(complete_prefix(&b"".to_vec()), 0);
    assert_eq!(complete_prefix(&b"no newline yet".to_vec()), 0);
    assert_eq!(complete_prefix(&b"one line\n".to_vec()), 9);
    assert_eq!(complete_prefix(&b"one line\npartial".to_vec()), 9);
    assert_eq!(complete_prefix(&b"a\nb\nc".to_vec()), 4);
    assert_eq!(complete_prefix(&b"\n".to_vec()), 1);
}

#[test]
fn unterminated_fragment_is_not_consumed() {
    // the file grows by a complete line plus the start of another;
    // only the complete line is consumed, the fragment stays past the
    // watermark and is re-read whole once its newline arrives
    let mut doc = LogDocument::new();
    doc.load("01.01.2024 10:00:00.000 *INFO* [m] a x\n", 39);

    let grown = b"whole line\npartial".to_vec();
    let cut = complete_prefix(&grown);
    assert_eq!(cut, 11);
    let consumed = String::from_utf8(grown[..cut].to_vec()).unwrap();
    doc.apply_append(&consumed, 39 + cut as u64);
    assert_eq!(doc.entries.len(), 2);
    assert_eq!(doc.entries[1].raw_line, "whole line");
    assert_eq!(doc.watermark, 50);

    // the next poll re-reads from the watermark: the completed line
    let rest = b"partial now done\n".to_vec();
    let cut = complete_prefix(&rest);
    assert_eq!(cut, rest.len());
    let consumed = String::from_utf8(rest).unwrap();
    doc.apply_append(&consumed, 50 + cut as u64);
    assert_eq!(doc.entries.len(), 3);
    assert_eq!(doc.entries[2].raw_line, "partial now done");
    assert_eq!(doc.watermark, 67);
}

#[test]
fn reload_replaces_previous_state() {
    let mut doc = LogDocument::new();
    doc.load("01.01.2024 10:00:00.000 *INFO* [m] a x\n", 40);
    doc.load("01.01.2024 11:00:00.000 *WARN* [m] b y\n", 41);
    assert_eq!(doc.entries.len(), 1);
    assert_eq!(doc.entries[0].level, LogLevel::Warn);
    assert_eq!(doc.watermark, 41);
}

#[test]
fn read_window_reads_small_files_whole() {
    assert_eq!(read_window(0), (0, 0));
    assert_eq!(read_window(123), (0, 123));
    assert_eq!(read_window(LARGE_FILE_THRESHOLD), (0, LARGE_FILE_THRESHOLD));
}

#[test]
fn read_window_reads_only_the_tail_of_large_files() {
    let size = LARGE_FILE_THRESHOLD + 1;
    assert_eq!(read_window(size), (size - TAIL_READ_LEN, TAIL_READ_LEN));
    let size = 50_000_000u64;
    assert_eq!(read_window(size), (48_000_000, 2_000_000));
}

#[test]
fn poll_decision_over_event_batches() {
    let none: Vec<WatchEvent> = Vec::new();
    assert!(!modify_event_seen(&none));
    let unrelated = vec![
        WatchEvent { is_modify: true, path_matches: false },
        WatchEvent { is_modify: false, path_matches: true },
    ];
    assert!(!modify_event_seen(&unrelated));
    let relevant = vec![
        WatchEvent { is_modify: false, path_matches: false },
        WatchEvent { is_modify: true, path_matches: true },
    ];
    assert!(modify_event_seen(&relevant));
}
