//! The log-entry model and the line classifier / multi-line parser.
//!
//! Two line grammars are recognised, tried in order:
//!
//! 1. the structured error-log grammar
//!    `<DD.MM.YYYY HH:MM:SS.mmm> *<LEVEL>* [<thread>] <rest>`, and
//! 2. the access-log grammar
//!    `<ip> - <user> <DD/Mon/YYYY:HH:MM:SS +ZZZZ> <rest>`.
//!
//! A line matching neither becomes an `Unknown`-level entry carrying the
//! line verbatim; classification never fails.

use vstd::prelude::*;

use crate::text::{
    chars_vec, digit_char, is_digit_char, is_space_char, is_word_char,
    lemma_nonspace_run_suffix, lemma_space_run_suffix, line_views, nonbracket_run,
    nonbracket_run_at, nonspace_run, nonspace_run_at, space_char, space_run, space_run_at,
    lemma_next_newline, next_newline, split_content, split_lines, split_lines_from, strip_cr,
    word_char, word_run, word_run_at,
};
use vstd::string::{StrSliceExecFns, StringExecFns};

verus! {

/// Severity of a log entry.
#[derive(Debug, Clone, Copy, PartialEq, Eq, Hash, Structural)]
pub enum LogLevel {
    Info,
    Warn,
    Error,
    Debug,
    Trace,
    Unknown,
}

/// One logical log record, possibly spanning several physical lines.
#[derive(Debug, Clone)]
pub struct LogEntry {
    /// 1-based number of the first physical line of this entry.
    pub line_number: usize,
    /// Timestamp text, verbatim from the source line.
    pub timestamp: Option<String>,
    pub level: LogLevel,
    /// Thread label, from the structured grammar only.
    pub thread: Option<String>,
    /// Originating-component label, from the structured grammar only.
    pub class: Option<String>,
    /// Free-text payload after the structured fields are stripped.
    pub message: String,
    /// The full original text of the entry, with embedded newlines
    /// between continuation lines.
    pub raw_line: String,
    /// True iff the structured error-log grammar matched.
    pub is_error_log: bool,
}

/// Mathematical image of a `LogEntry`.
#[verifier::ext_equal]
pub struct LogEntryView {
    pub line_number: int,
    pub timestamp: Option<Seq<char>>,
    pub level: LogLevel,
    pub thread: Option<Seq<char>>,
    pub class: Option<Seq<char>>,
    pub message: Seq<char>,
    pub raw_line: Seq<char>,
    pub is_error_log: bool,
}

impl View for LogEntry {
    type V = LogEntryView;

    open spec fn view(&self) -> LogEntryView {
        LogEntryView {
            line_number: self.line_number as int,
            timestamp: match self.timestamp {
                Some(ref t) => Some(t@),
                None => None,
            },
            level: self.level,
            thread: match self.thread {
                Some(ref t) => Some(t@),
                None => None,
            },
            class: match self.class {
                Some(ref c) => Some(c@),
                None => None,
            },
            message: self.message@,
            raw_line: self.raw_line@,
            is_error_log: self.is_error_log,
        }
    }
}

// ---------------------------------------------------------------------
// The structured error-log grammar.
// ---------------------------------------------------------------------

/// `DD.MM.YYYY` at position `i`.
pub open spec fn date_at(s: Seq<char>, i: int) -> bool {
    &&& 0 <= i
    &&& i + 10 <= s.len()
    &&& is_digit_char(s[i])
    &&& is_digit_char(s[i + 1])
    &&& s[i + 2] == '.'
    &&& is_digit_char(s[i + 3])
    &&& is_digit_char(s[i + 4])
    &&& s[i + 5] == '.'
    &&& is_digit_char(s[i + 6])
    &&& is_digit_char(s[i + 7])
    &&& is_digit_char(s[i + 8])
    &&& is_digit_char(s[i + 9])
}

/// `HH:MM:SS.mmm` at position `i`.
pub open spec fn time_at(s: Seq<char>, i: int) -> bool {
    &&& 0 <= i
    &&& i + 12 <= s.len()
    &&& is_digit_char(s[i])
    &&& is_digit_char(s[i + 1])
    &&& s[i + 2] == ':'
    &&& is_digit_char(s[i + 3])
    &&& is_digit_char(s[i + 4])
    &&& s[i + 5] == ':'
    &&& is_digit_char(s[i + 6])
    &&& is_digit_char(s[i + 7])
    &&& s[i + 8] == '.'
    &&& is_digit_char(s[i + 9])
    &&& is_digit_char(s[i + 10])
    &&& is_digit_char(s[i + 11])
}

pub open spec fn contains_newline(s: Seq<char>) -> bool {
    exists|j: int| 0 <= j < s.len() && s[j] == '\n'
}

/// The tail of both grammars: at least one whitespace character, then a
/// non-empty remainder free of newlines, running to the end of the line.
/// When only whitespace follows, the last whitespace character itself
/// serves as the remainder, provided at least one other separates it
/// from the structured part.
pub open spec fn rest_from(s: Seq<char>, p: int) -> Option<Seq<char>> {
    let k = space_run(s, p);
    if k < 1 {
        None
    } else if p + k < s.len() {
        let r = s.subrange(p + k, s.len() as int);
        if contains_newline(r) {
            None
        } else {
            Some(r)
        }
    } else if k >= 2 && s[s.len() - 1] != '\n' {
        Some(s.subrange(s.len() - 1, s.len() as int))
    } else {
        None
    }
}

/// Fields extracted by the structured error-log grammar:
/// (timestamp, level token, thread, rest).
pub open spec fn err_parse(s: Seq<char>) -> Option<(Seq<char>, Seq<char>, Seq<char>, Seq<char>)> {
    if !date_at(s, 0) {
        None
    } else {
        let k1 = space_run(s, 10);
        if k1 < 1 || !time_at(s, 10 + k1) {
            None
        } else {
            let ts_end = 10 + k1 + 12;
            let k2 = space_run(s, ts_end);
            let p_star = ts_end + k2;
            if k2 < 1 || !(p_star < s.len() && s[p_star] == '*') {
                None
            } else {
                let w = word_run(s, p_star + 1);
                let p_star2 = p_star + 1 + w;
                if w < 1 || !(p_star2 < s.len() && s[p_star2] == '*') {
                    None
                } else {
                    let k3 = space_run(s, p_star2 + 1);
                    let p_open = p_star2 + 1 + k3;
                    if k3 < 1 || !(p_open < s.len() && s[p_open] == '[') {
                        None
                    } else {
                        let b = nonbracket_run(s, p_open + 1);
                        let p_close = p_open + 1 + b;
                        if b < 1 || !(p_close < s.len() && s[p_close] == ']') {
                            None
                        } else {
                            match rest_from(s, p_close + 1) {
                                None => None,
                                Some(rest) => Some(
                                    (
                                        s.subrange(0, ts_end),
                                        s.subrange(p_star + 1, p_star2),
                                        s.subrange(p_open + 1, p_close),
                                        rest,
                                    ),
                                ),
                            }
                        }
                    }
                }
            }
        }
    }
}

// ---------------------------------------------------------------------
// The access-log grammar.
// ---------------------------------------------------------------------

/// `DD/Mon/YYYY:HH:MM:SS` at position `i` (20 characters).
pub open spec fn access_date_at(s: Seq<char>, i: int) -> bool {
    &&& 0 <= i
    &&& i + 20 <= s.len()
    &&& is_digit_char(s[i])
    &&& is_digit_char(s[i + 1])
    &&& s[i + 2] == '/'
    &&& is_word_char(s[i + 3])
    &&& is_word_char(s[i + 4])
    &&& is_word_char(s[i + 5])
    &&& s[i + 6] == '/'
    &&& is_digit_char(s[i + 7])
    &&& is_digit_char(s[i + 8])
    &&& is_digit_char(s[i + 9])
    &&& is_digit_char(s[i + 10])
    &&& s[i + 11] == ':'
    &&& is_digit_char(s[i + 12])
    &&& is_digit_char(s[i + 13])
    &&& s[i + 14] == ':'
    &&& is_digit_char(s[i + 15])
    &&& is_digit_char(s[i + 16])
    &&& s[i + 17] == ':'
    &&& is_digit_char(s[i + 18])
    &&& is_digit_char(s[i + 19])
}

/// `+ZZZZ` or `-ZZZZ` at position `i` (5 characters).
pub open spec fn tz_at(s: Seq<char>, i: int) -> bool {
    &&& 0 <= i
    &&& i + 5 <= s.len()
    &&& (s[i] == '+' || s[i] == '-')
    &&& is_digit_char(s[i + 1])
    &&& is_digit_char(s[i + 2])
    &&& is_digit_char(s[i + 3])
    &&& is_digit_char(s[i + 4])
}

/// Fields extracted by the access-log grammar:
/// (ip, user, timestamp, rest).
pub open spec fn access_parse(s: Seq<char>) -> Option<
    (Seq<char>, Seq<char>, Seq<char>, Seq<char>),
> {
    let r1 = nonspace_run(s, 0);
    let k1 = space_run(s, r1);
    let p_dash = r1 + k1;
    if r1 < 1 || k1 < 1 || !(p_dash < s.len() && s[p_dash] == '-') {
        None
    } else {
        let k2 = space_run(s, p_dash + 1);
        let u = p_dash + 1 + k2;
        let r2 = nonspace_run(s, u);
        if k2 < 1 || r2 < 1 {
            None
        } else {
            let k3 = space_run(s, u + r2);
            let d = u + r2 + k3;
            if k3 < 1 || !access_date_at(s, d) {
                None
            } else {
                let k4 = space_run(s, d + 20);
                let z = d + 20 + k4;
                if k4 < 1 || !tz_at(s, z) {
                    None
                } else {
                    match rest_from(s, z + 5) {
                        None => None,
                        Some(rest) => Some(
                            (
                                s.subrange(0, r1),
                                s.subrange(u, u + r2),
                                s.subrange(d, z + 5),
                                rest,
                            ),
                        ),
                    }
                }
            }
        }
    }
}

// ---------------------------------------------------------------------
// Field post-processing and classification.
// ---------------------------------------------------------------------

/// Case-insensitive match of one character against a letter.
pub open spec fn ci_eq(c: char, lower: char, upper: char) -> bool {
    c == lower || c == upper
}

pub open spec fn token_is_info(t: Seq<char>) -> bool {
    t.len() == 4 && ci_eq(t[0], 'i', 'I') && ci_eq(t[1], 'n', 'N') && ci_eq(t[2], 'f', 'F')
        && ci_eq(t[3], 'o', 'O')
}

pub open spec fn token_is_warn(t: Seq<char>) -> bool {
    t.len() == 4 && ci_eq(t[0], 'w', 'W') && ci_eq(t[1], 'a', 'A') && ci_eq(t[2], 'r', 'R')
        && ci_eq(t[3], 'n', 'N')
}

pub open spec fn token_is_error(t: Seq<char>) -> bool {
    t.len() == 5 && ci_eq(t[0], 'e', 'E') && ci_eq(t[1], 'r', 'R') && ci_eq(t[2], 'r', 'R')
        && ci_eq(t[3], 'o', 'O') && ci_eq(t[4], 'r', 'R')
}

pub open spec fn token_is_debug(t: Seq<char>) -> bool {
    t.len() == 5 && ci_eq(t[0], 'd', 'D') && ci_eq(t[1], 'e', 'E') && ci_eq(t[2], 'b', 'B')
        && ci_eq(t[3], 'u', 'U') && ci_eq(t[4], 'g', 'G')
}

pub open spec fn token_is_trace(t: Seq<char>) -> bool {
    t.len() == 5 && ci_eq(t[0], 't', 'T') && ci_eq(t[1], 'r', 'R') && ci_eq(t[2], 'a', 'A')
        && ci_eq(t[3], 'c', 'C') && ci_eq(t[4], 'e', 'E')
}

/// Case-insensitive map from the level token to a `LogLevel`.
pub open spec fn level_of_token(t: Seq<char>) -> LogLevel {
    if token_is_info(t) {
        LogLevel::Info
    } else if token_is_warn(t) {
        LogLevel::Warn
    } else if token_is_error(t) {
        LogLevel::Error
    } else if token_is_debug(t) {
        LogLevel::Debug
    } else if token_is_trace(t) {
        LogLevel::Trace
    } else {
        LogLevel::Unknown
    }
}

/// First whitespace-delimited token of `rest`: the component label.
pub open spec fn class_of_rest(rest: Seq<char>) -> Seq<char> {
    rest.subrange(0, nonspace_run(rest, 0))
}

/// What remains of `rest` after the label and the whitespace run behind
/// it; the whole of `rest` when there is no second token.
pub open spec fn message_of_rest(rest: Seq<char>) -> Seq<char> {
    let f = nonspace_run(rest, 0);
    if f == rest.len() {
        rest
    } else {
        rest.subrange(f + space_run(rest, f), rest.len() as int)
    }
}

/// Classification of one physical line: the entry it yields.
pub open spec fn classify_spec(s: Seq<char>, n: int) -> LogEntryView {
    match err_parse(s) {
        Some((ts, tok, thread, rest)) => LogEntryView {
            line_number: n,
            timestamp: Some(ts),
            level: level_of_token(tok),
            thread: Some(thread),
            class: Some(class_of_rest(rest)),
            message: message_of_rest(rest),
            raw_line: s,
            is_error_log: true,
        },
        None => match access_parse(s) {
            Some((ip, user, ts, rest)) => LogEntryView {
                line_number: n,
                timestamp: Some(ts),
                level: LogLevel::Info,
                thread: None,
                class: None,
                message: ip + " - "@ + user + " - "@ + rest,
                raw_line: s,
                is_error_log: false,
            },
            None => LogEntryView {
                line_number: n,
                timestamp: None,
                level: LogLevel::Unknown,
                thread: None,
                class: None,
                message: s,
                raw_line: s,
                is_error_log: false,
            },
        },
    }
}

// ---------------------------------------------------------------------
// Executable recognisers.
// ---------------------------------------------------------------------

fn date_at_exec(v: &Vec<char>, i: usize) -> (r: bool)
    requires
        i <= v@.len(),
    ensures
        r == date_at(v@, i as int),
{
    if v.len() - i < 10 {
        return false;
    }
    digit_char(v[i]) && digit_char(v[i + 1]) && v[i + 2] == '.' && digit_char(v[i + 3])
        && digit_char(v[i + 4]) && v[i + 5] == '.' && digit_char(v[i + 6]) && digit_char(v[i + 7])
        && digit_char(v[i + 8]) && digit_char(v[i + 9])
}

fn time_at_exec(v: &Vec<char>, i: usize) -> (r: bool)
    requires
        i <= v@.len(),
    ensures
        r == time_at(v@, i as int),
{
    if v.len() - i < 12 {
        return false;
    }
    digit_char(v[i]) && digit_char(v[i + 1]) && v[i + 2] == ':' && digit_char(v[i + 3])
        && digit_char(v[i + 4]) && v[i + 5] == ':' && digit_char(v[i + 6]) && digit_char(v[i + 7])
        && v[i + 8] == '.' && digit_char(v[i + 9]) && digit_char(v[i + 10]) && digit_char(
        v[i + 11],
    )
}

fn access_date_at_exec(v: &Vec<char>, i: usize) -> (r: bool)
    requires
        i <= v@.len(),
    ensures
        r == access_date_at(v@, i as int),
{
    if v.len() - i < 20 {
        return false;
    }
    digit_char(v[i]) && digit_char(v[i + 1]) && v[i + 2] == '/' && word_char(v[i + 3]) && word_char(
        v[i + 4],
    ) && word_char(v[i + 5]) && v[i + 6] == '/' && digit_char(v[i + 7]) && digit_char(v[i + 8])
        && digit_char(v[i + 9]) && digit_char(v[i + 10]) && v[i + 11] == ':' && digit_char(
        v[i + 12],
    ) && digit_char(v[i + 13]) && v[i + 14] == ':' && digit_char(v[i + 15]) && digit_char(
        v[i + 16],
    ) && v[i + 17] == ':' && digit_char(v[i + 18]) && digit_char(v[i + 19])
}

fn tz_at_exec(v: &Vec<char>, i: usize) -> (r: bool)
    requires
        i <= v@.len(),
    ensures
        r == tz_at(v@, i as int),
{
    if v.len() - i < 5 {
        return false;
    }
    (v[i] == '+' || v[i] == '-') && digit_char(v[i + 1]) && digit_char(v[i + 2]) && digit_char(
        v[i + 3],
    ) && digit_char(v[i + 4])
}

fn newline_in_range(v: &Vec<char>, a: usize, b: usize) -> (r: bool)
    requires
        a <= b <= v@.len(),
    ensures
        r == contains_newline(v@.subrange(a as int, b as int)),
{
    let mut j = a;
    while j < b
        invariant
            a <= j <= b <= v@.len(),
            forall|t: int| a <= t < j ==> v@[t] != '\n',
        decreases b - j,
    {
        if v[j] == '\n' {
            assert(v@.subrange(a as int, b as int)[j - a] == '\n');
            return true;
        }
        j = j + 1;
    }
    assert(forall|t: int| 0 <= t < b - a ==> v@.subrange(a as int, b as int)[t] != '\n');
    false
}

/// The half-open range of `rest_from` within the line, when it accepts.
fn rest_range(v: &Vec<char>, p: usize) -> (r: Option<(usize, usize)>)
    requires
        p <= v@.len(),
    ensures
        match r {
            Some((a, b)) => {
                &&& p <= a <= b <= v@.len()
                &&& b == v@.len()
                &&& rest_from(v@, p as int) == Some(v@.subrange(a as int, b as int))
            },
            None => rest_from(v@, p as int) is None,
        },
{
    let n = v.len();
    let k = space_run_at(v, p);
    if k < 1 {
        return None;
    }
    if p + k < n {
        if newline_in_range(v, p + k, v.len()) {
            None
        } else {
            Some((p + k, v.len()))
        }
    } else {
        if k >= 2 && v[v.len() - 1] != '\n' {
            Some((v.len() - 1, v.len()))
        } else {
            None
        }
    }
}

/// Character ranges of the structured grammar's fields within a line.
struct ErrFields {
    ts_end: usize,
    tok_a: usize,
    tok_b: usize,
    thr_a: usize,
    thr_b: usize,
    rest_a: usize,
    rest_b: usize,
}

fn err_parse_exec(v: &Vec<char>) -> (r: Option<ErrFields>)
    ensures
        match r {
            Some(f) => {
                &&& f.tok_a <= f.tok_b <= v@.len()
                &&& f.thr_a <= f.thr_b <= v@.len()
                &&& f.rest_a <= f.rest_b <= v@.len()
                &&& f.rest_b == v@.len()
                &&& f.ts_end <= v@.len()
                &&& err_parse(v@) == Some(
                    (
                        v@.subrange(0, f.ts_end as int),
                        v@.subrange(f.tok_a as int, f.tok_b as int),
                        v@.subrange(f.thr_a as int, f.thr_b as int),
                        v@.subrange(f.rest_a as int, f.rest_b as int),
                    ),
                )
            },
            None => err_parse(v@) is None,
        },
{
    let n = v.len();
    if !date_at_exec(v, 0) {
        return None;
    }
    let k1 = space_run_at(v, 10);
    if k1 < 1 || !time_at_exec(v, 10 + k1) {
        return None;
    }
    let ts_end = 10 + k1 + 12;
    let k2 = space_run_at(v, ts_end);
    let p_star = ts_end + k2;
    if k2 < 1 || !(p_star < v.len() && v[p_star] == '*') {
        return None;
    }
    let w = word_run_at(v, p_star + 1);
    let p_star2 = p_star + 1 + w;
    if w < 1 || !(p_star2 < v.len() && v[p_star2] == '*') {
        return None;
    }
    let k3 = space_run_at(v, p_star2 + 1);
    let p_open = p_star2 + 1 + k3;
    if k3 < 1 || !(p_open < v.len() && v[p_open] == '[') {
        return None;
    }
    let b = nonbracket_run_at(v, p_open + 1);
    let p_close = p_open + 1 + b;
    if b < 1 || !(p_close < v.len() && v[p_close] == ']') {
        return None;
    }
    match rest_range(v, p_close + 1) {
        None => None,
        Some((ra, rb)) => Some(
            ErrFields {
                ts_end,
                tok_a: p_star + 1,
                tok_b: p_star2,
                thr_a: p_open + 1,
                thr_b: p_close,
                rest_a: ra,
                rest_b: rb,
            },
        ),
    }
}

/// Character ranges of the access-log grammar's fields within a line.
struct AccessFields {
    ip_end: usize,
    user_a: usize,
    user_b: usize,
    ts_a: usize,
    ts_b: usize,
    rest_a: usize,
    rest_b: usize,
}

fn access_parse_exec(v: &Vec<char>) -> (r: Option<AccessFields>)
    ensures
        match r {
            Some(f) => {
                &&& f.ip_end <= v@.len()
                &&& f.user_a <= f.user_b <= v@.len()
                &&& f.ts_a <= f.ts_b <= v@.len()
                &&& f.rest_a <= f.rest_b <= v@.len()
                &&& f.rest_b == v@.len()
                &&& access_parse(v@) == Some(
                    (
                        v@.subrange(0, f.ip_end as int),
                        v@.subrange(f.user_a as int, f.user_b as int),
                        v@.subrange(f.ts_a as int, f.ts_b as int),
                        v@.subrange(f.rest_a as int, f.rest_b as int),
                    ),
                )
            },
            None => access_parse(v@) is None,
        },
{
    let n = v.len();
    let r1 = nonspace_run_at(v, 0);
    if r1 < 1 {
        return None;
    }
    let k1 = space_run_at(v, r1);
    let p_dash = r1 + k1;
    if k1 < 1 || !(p_dash < v.len() && v[p_dash] == '-') {
        return None;
    }
    let k2 = space_run_at(v, p_dash + 1);
    let u = p_dash + 1 + k2;
    let r2 = nonspace_run_at(v, u);
    if k2 < 1 || r2 < 1 {
        return None;
    }
    let k3 = space_run_at(v, u + r2);
    let d = u + r2 + k3;
    if k3 < 1 || !access_date_at_exec(v, d) {
        return None;
    }
    let k4 = space_run_at(v, d + 20);
    let z = d + 20 + k4;
    if k4 < 1 || !tz_at_exec(v, z) {
        return None;
    }
    match rest_range(v, z + 5) {
        None => None,
        Some((ra, rb)) => Some(
            AccessFields {
                ip_end: r1,
                user_a: u,
                user_b: u + r2,
                ts_a: d,
                ts_b: z + 5,
                rest_a: ra,
                rest_b: rb,
            },
        ),
    }
}

// ---------------------------------------------------------------------
// Entry boundaries and multi-line grouping.
// ---------------------------------------------------------------------

/// The lightweight boundary heuristic: two digits followed by `.` or
/// `/`, the shape of a timestamp-prefixed line.
pub open spec fn timestamp_prefixed(s: Seq<char>) -> bool {
    s.len() >= 3 && is_digit_char(s[0]) && is_digit_char(s[1]) && (s[2] == '.' || s[2] == '/')
}

/// A line starts a new entry iff one of the two grammars matches it or
/// it carries the timestamp-prefix shape.
pub open spec fn starts_entry(s: Seq<char>) -> bool {
    err_parse(s) is Some || access_parse(s) is Some || timestamp_prefixed(s)
}

/// A blank line: nothing but whitespace (or nothing at all).
pub open spec fn all_space(s: Seq<char>) -> bool {
    forall|j: int| 0 <= j < s.len() ==> is_space_char(s[j])
}

/// Whether a line starts a new log entry. The composed boundary test
/// that the multi-line parser uses to cut the line stream into entries.
pub fn is_entry_boundary(line: &str) -> (r: bool)
    ensures
        r == starts_entry(line@),
{
    let v = chars_vec(line);
    if err_parse_exec(&v).is_some() {
        return true;
    }
    if access_parse_exec(&v).is_some() {
        return true;
    }
    v.len() >= 3 && digit_char(v[0]) && digit_char(v[1]) && (v[2] == '.' || v[2] == '/')
}

/// Whether a line is blank.
pub fn is_blank_line(line: &str) -> (r: bool)
    ensures
        r == all_space(line@),
{
    let v = chars_vec(line);
    let n = v.len();
    let mut j: usize = 0;
    while j < n
        invariant
            0 <= j <= n,
            n == v@.len(),
            v@ == line@,
            forall|t: int| 0 <= t < j ==> is_space_char(line@[t]),
        decreases n - j,
    {
        if !space_char(v[j]) {
            return false;
        }
        j = j + 1;
    }
    true
}

/// First index at or after `j` whose line ends the absorption of
/// continuation lines: a new entry start, a blank line, or the end.
pub open spec fn absorb_end(ls: Seq<Seq<char>>, j: int) -> int
    decreases ls.len() - j,
{
    if j < 0 || j >= ls.len() {
        ls.len() as int
    } else if starts_entry(ls[j]) || all_space(ls[j]) {
        j
    } else {
        absorb_end(ls, j + 1)
    }
}

pub proof fn lemma_absorb_end(ls: Seq<Seq<char>>, j: int)
    requires
        0 <= j <= ls.len(),
    ensures
        j <= absorb_end(ls, j) <= ls.len(),
        forall|t: int|
            j <= t < absorb_end(ls, j) ==> !starts_entry(ls[t]) && !all_space(ls[t]),
        absorb_end(ls, j) < ls.len() ==> starts_entry(ls[absorb_end(ls, j)]) || all_space(
            ls[absorb_end(ls, j)],
        ),
    decreases ls.len() - j,
{
    if j < ls.len() && !starts_entry(ls[j]) && !all_space(ls[j]) {
        lemma_absorb_end(ls, j + 1);
    }
}

/// The lines `[i, j)` joined with newline separators.
pub open spec fn join_group(ls: Seq<Seq<char>>, i: int, j: int) -> Seq<char>
    decreases j - i,
{
    if i < 0 || j > ls.len() || i >= j {
        Seq::empty()
    } else if i + 1 == j {
        ls[i]
    } else {
        ls[i] + seq!['\n'] + join_group(ls, i + 1, j)
    }
}

pub proof fn lemma_join_group_snoc(ls: Seq<Seq<char>>, i: int, j: int)
    requires
        0 <= i < j < ls.len(),
    ensures
        join_group(ls, i, j + 1) == join_group(ls, i, j) + seq!['\n'] + ls[j],
    decreases j - i,
{
    if i + 1 == j {
        assert(join_group(ls, i + 1, j + 1) =~= ls[j]);
        assert(join_group(ls, i, j + 1) =~= ls[i] + seq!['\n'] + join_group(ls, i + 1, j + 1));
        assert(join_group(ls, i, j + 1) =~= join_group(ls, i, j) + seq!['\n'] + ls[j]);
    } else {
        lemma_join_group_snoc(ls, i + 1, j);
        assert(join_group(ls, i, j + 1) =~= ls[i] + seq!['\n'] + join_group(ls, i + 1, j + 1));
        assert(join_group(ls, i, j) =~= ls[i] + seq!['\n'] + join_group(ls, i + 1, j));
        assert(join_group(ls, i, j + 1) =~= join_group(ls, i, j) + seq!['\n'] + ls[j]);
    }
}

/// The entry formed from the starting line `i` of a group, with the
/// whole group's text as its raw form.
pub open spec fn entry_of_group(ls: Seq<Seq<char>>, i: int, j: int) -> LogEntryView {
    LogEntryView { raw_line: join_group(ls, i, j), ..classify_spec(ls[i], i + 1) }
}

#[via_fn]
proof fn parse_lines_from_decreases(ls: Seq<Seq<char>>, i: int) {
    if 0 <= i < ls.len() {
        lemma_absorb_end(ls, i + 1);
    }
}

/// The entries parsed from the line stream `ls`, beginning at line `i`:
/// a line that starts an entry opens a group absorbing the following
/// continuation lines; any other line is dropped.
pub open spec fn parse_lines_from(ls: Seq<Seq<char>>, i: int) -> Seq<LogEntryView>
    decreases ls.len() - i,
    via parse_lines_from_decreases
{
    if i < 0 || i >= ls.len() {
        Seq::empty()
    } else if !starts_entry(ls[i]) {
        parse_lines_from(ls, i + 1)
    } else {
        let j = absorb_end(ls, i + 1);
        seq![entry_of_group(ls, i, j)] + parse_lines_from(ls, j)
    }
}

/// The entries parsed from a whole text.
pub open spec fn parse_file_spec(content: Seq<char>) -> Seq<LogEntryView> {
    parse_lines_from(split_lines(content), 0)
}

/// The views of a vector of entries.
pub open spec fn entry_views(es: Seq<LogEntry>) -> Seq<LogEntryView> {
    es.map_values(|e: LogEntry| e@)
}

// ---------------------------------------------------------------------
// Laws of the parser.
// ---------------------------------------------------------------------

/// Law: classification is total. Every line yields an entry whose
/// level is one of the six defined values, carrying the line as its
/// raw text.
pub proof fn lemma_classify_total(s: Seq<char>, n: int)
    ensures
        classify_spec(s, n).level == LogLevel::Info || classify_spec(s, n).level == LogLevel::Warn
            || classify_spec(s, n).level == LogLevel::Error || classify_spec(s, n).level
            == LogLevel::Debug || classify_spec(s, n).level == LogLevel::Trace || classify_spec(
            s,
            n,
        ).level == LogLevel::Unknown,
        classify_spec(s, n).raw_line == s,
        classify_spec(s, n).line_number == n,
{
}

/// Law: parsing is deterministic. Two parses of the same content are
/// structurally identical entry sequences.
pub proof fn lemma_parse_idempotent(
    content: Seq<char>,
    r1: Seq<LogEntryView>,
    r2: Seq<LogEntryView>,
)
    requires
        r1 == parse_file_spec(content),
        r2 == parse_file_spec(content),
    ensures
        r1 == r2,
{
}

/// The raw texts of a sequence of entries, joined with newlines.
pub open spec fn join_entries(es: Seq<LogEntryView>) -> Seq<char>
    decreases es.len(),
{
    if es.len() == 0 {
        Seq::empty()
    } else if es.len() == 1 {
        es[0].raw_line
    } else {
        es[0].raw_line + seq!['\n'] + join_entries(es.drop_first())
    }
}

proof fn lemma_join_group_concat(ls: Seq<Seq<char>>, i: int, j: int, k: int)
    requires
        0 <= i < j < k <= ls.len(),
    ensures
        join_group(ls, i, k) == join_group(ls, i, j) + seq!['\n'] + join_group(ls, j, k),
    decreases j - i,
{
    if i + 1 == j {
        assert(join_group(ls, i, k) =~= ls[i] + seq!['\n'] + join_group(ls, i + 1, k));
        assert(join_group(ls, i, j) =~= ls[i]);
    } else {
        lemma_join_group_concat(ls, i + 1, j, k);
        assert(join_group(ls, i, k) =~= ls[i] + seq!['\n'] + join_group(ls, i + 1, k));
        assert(join_group(ls, i, j) =~= ls[i] + seq!['\n'] + join_group(ls, i + 1, j));
        assert(join_group(ls, i, k) =~= join_group(ls, i, j) + seq!['\n'] + join_group(ls, j, k));
    }
}

proof fn lemma_parse_lines_nonempty(ls: Seq<Seq<char>>, i: int)
    requires
        0 <= i < ls.len(),
        starts_entry(ls[i]),
    ensures
        parse_lines_from(ls, i).len() >= 1,
        parse_lines_from(ls, i)[0] == entry_of_group(ls, i, absorb_end(ls, i + 1)),
{
}

proof fn lemma_round_trip_from(ls: Seq<Seq<char>>, i: int)
    requires
        0 <= i < ls.len(),
        starts_entry(ls[i]),
        forall|t: int| i <= t < ls.len() ==> !all_space(ls[t]),
    ensures
        join_entries(parse_lines_from(ls, i)) == join_group(ls, i, ls.len() as int),
    decreases ls.len() - i,
{
    lemma_absorb_end(ls, i + 1);
    let j = absorb_end(ls, i + 1);
    let e = entry_of_group(ls, i, j);
    let rest = parse_lines_from(ls, j);
    assert(parse_lines_from(ls, i) =~= seq![e] + rest);
    if j == ls.len() {
        assert(rest =~= Seq::<LogEntryView>::empty());
        assert(join_entries(seq![e] + rest) == e.raw_line);
    } else {
        assert(starts_entry(ls[j]));
        lemma_round_trip_from(ls, j);
        lemma_parse_lines_nonempty(ls, j);
        let es = seq![e] + rest;
        assert(es.len() >= 2);
        assert(es.drop_first() =~= rest);
        assert(join_entries(es) == e.raw_line + seq!['\n'] + join_entries(rest));
        lemma_join_group_concat(ls, i, j, ls.len() as int);
    }
}

/// Law: round trip. When the first line starts an entry and no line is
/// blank, every line lands in exactly one entry and the entries' raw
/// texts, joined with newlines, reproduce the whole line sequence.
pub proof fn lemma_round_trip_lines(ls: Seq<Seq<char>>)
    requires
        ls.len() > 0,
        starts_entry(ls[0]),
        forall|t: int| 0 <= t < ls.len() ==> !all_space(ls[t]),
    ensures
        join_entries(parse_lines_from(ls, 0)) == join_group(ls, 0, ls.len() as int),
{
    lemma_round_trip_from(ls, 0);
}

/// The first line at or after `i` that starts an entry, or the length
/// of the line sequence when none does.
pub open spec fn first_entry_start(ls: Seq<Seq<char>>, i: int) -> int
    decreases ls.len() - i,
{
    if i < 0 || i >= ls.len() {
        ls.len() as int
    } else if starts_entry(ls[i]) {
        i
    } else {
        first_entry_start(ls, i + 1)
    }
}

pub proof fn lemma_first_entry_start(ls: Seq<Seq<char>>, i: int)
    requires
        0 <= i <= ls.len(),
    ensures
        i <= first_entry_start(ls, i) <= ls.len(),
        forall|t: int| i <= t < first_entry_start(ls, i) ==> !starts_entry(ls[t]),
        first_entry_start(ls, i) < ls.len() ==> starts_entry(ls[first_entry_start(ls, i)]),
    decreases ls.len() - i,
{
    if i < ls.len() && !starts_entry(ls[i]) {
        lemma_first_entry_start(ls, i + 1);
    }
}

proof fn lemma_parse_from_skip(ls: Seq<Seq<char>>, i: int, f: int)
    requires
        0 <= i <= f <= ls.len(),
        forall|t: int| i <= t < f ==> !starts_entry(ls[t]),
    ensures
        parse_lines_from(ls, i) == parse_lines_from(ls, f),
    decreases f - i,
{
    if i < f {
        lemma_parse_from_skip(ls, i + 1, f);
    }
}

/// Law: round trip modulo the leading prefix. Lines before the first
/// entry-starting line are dropped; from that line on, when no line is
/// blank, the parsed entries' raw texts joined with newlines reproduce
/// the line sequence exactly.
pub proof fn lemma_round_trip_modulo_prefix(ls: Seq<Seq<char>>)
    requires
        first_entry_start(ls, 0) < ls.len(),
        forall|t: int| first_entry_start(ls, 0) <= t < ls.len() ==> !all_space(ls[t]),
    ensures
        join_entries(parse_lines_from(ls, 0)) == join_group(
            ls,
            first_entry_start(ls, 0),
            ls.len() as int,
        ),
{
    let f = first_entry_start(ls, 0);
    lemma_first_entry_start(ls, 0);
    lemma_parse_from_skip(ls, 0, f);
    lemma_round_trip_from(ls, f);
}

/// Law: entries come out in file order. Parsing from line `i` yields
/// entries whose line numbers are strictly increasing and at least
/// `i + 1`.
pub proof fn lemma_entry_numbers_increase(ls: Seq<Seq<char>>, i: int)
    requires
        0 <= i,
    ensures
        forall|k: int|
            0 <= k < parse_lines_from(ls, i).len() ==> (#[trigger] parse_lines_from(ls, i)[
                k]).line_number >= i + 1,
        forall|k1: int, k2: int|
            0 <= k1 < k2 < parse_lines_from(ls, i).len() ==> (#[trigger] parse_lines_from(
                ls,
                i,
            )[k1]).line_number < (#[trigger] parse_lines_from(ls, i)[k2]).line_number,
    decreases ls.len() - i,
{
    if 0 <= i < ls.len() {
        if !starts_entry(ls[i]) {
            lemma_entry_numbers_increase(ls, i + 1);
        } else {
            lemma_absorb_end(ls, i + 1);
            let j = absorb_end(ls, i + 1);
            let e = entry_of_group(ls, i, j);
            let rest = parse_lines_from(ls, j);
            lemma_entry_numbers_increase(ls, j);
            let es = parse_lines_from(ls, i);
            assert(es =~= seq![e] + rest);
            assert(e.line_number == i + 1);
            assert(forall|k: int| 0 <= k < rest.len() ==> (#[trigger] rest[k]).line_number >= j
                + 1);
            assert(forall|k: int| 1 <= k < es.len() ==> es[k] == rest[k - 1]);
        }
    }
}

proof fn lemma_join_group_shift(x: Seq<char>, rest: Seq<Seq<char>>, a: int, b: int)
    requires
        0 <= a,
        b <= rest.len(),
    ensures
        join_group(seq![x] + rest, a + 1, b + 1) == join_group(rest, a, b),
    decreases b - a,
{
    let js = seq![x] + rest;
    if a >= b {
        assert(join_group(js, a + 1, b + 1) =~= Seq::<char>::empty());
        assert(join_group(rest, a, b) =~= Seq::<char>::empty());
    } else if a + 1 == b {
        assert(js[a + 1] == rest[a]);
        assert(join_group(js, a + 1, b + 1) =~= rest[a]);
        assert(join_group(rest, a, b) =~= rest[a]);
    } else {
        lemma_join_group_shift(x, rest, a + 1, b);
        assert(js[a + 1] == rest[a]);
        assert(join_group(js, a + 1, b + 1) =~= js[a + 1] + seq!['\n'] + join_group(
            js,
            a + 2,
            b + 1,
        ));
        assert(join_group(rest, a, b) =~= rest[a] + seq!['\n'] + join_group(rest, a + 1, b));
    }
}

proof fn lemma_split_join(s: Seq<char>, i: int)
    requires
        0 <= i <= s.len(),
        forall|j: int| 0 <= j < s.len() ==> s[j] != '\r',
        s.len() > 0 ==> s[s.len() - 1] != '\n',
    ensures
        join_group(
            split_lines_from(s, i),
            0,
            split_lines_from(s, i).len() as int,
        ) == s.subrange(i, s.len() as int),
    decreases s.len() - i,
{
    if i >= s.len() {
        assert(split_lines_from(s, i) =~= Seq::<Seq<char>>::empty());
        assert(s.subrange(i, s.len() as int) =~= Seq::<char>::empty());
    } else {
        lemma_next_newline(s, i);
        let k = next_newline(s, i);
        if k == s.len() {
            let sl = split_lines_from(s, i);
            assert(sl =~= seq![s.subrange(i, s.len() as int)]);
            assert(join_group(sl, 0, 1) =~= sl[0]);
        } else {
            assert(s[k] == '\n');
            assert(k < s.len() - 1);
            let head = strip_cr(s.subrange(i, k));
            let tail = split_lines_from(s, k + 1);
            let sl = split_lines_from(s, i);
            assert(sl =~= seq![head] + tail);
            assert(head =~= s.subrange(i, k)) by {
                if k > i {
                    assert(s.subrange(i, k)[k - i - 1] == s[k - 1]);
                }
            }
            lemma_split_join(s, k + 1);
            assert(k + 1 < s.len());
            assert(tail.len() >= 1);
            let m = sl.len() as int;
            assert(m == 1 + tail.len());
            assert(join_group(sl, 0, m) =~= sl[0] + seq!['\n'] + join_group(sl, 1, m));
            lemma_join_group_shift(head, tail, 0, tail.len() as int);
            assert(join_group(sl, 0, m) =~= s.subrange(i, k) + seq!['\n'] + s.subrange(
                k + 1,
                s.len() as int,
            ));
            assert(join_group(sl, 0, m) =~= s.subrange(i, s.len() as int));
        }
    }
}

/// Law: round trip from whole content. For content free of carriage
/// returns and of a trailing newline, whose first line starts an entry
/// and whose lines are never blank, concatenating the parsed entries'
/// raw texts with newlines reproduces the content exactly.
pub proof fn lemma_round_trip_content(content: Seq<char>)
    requires
        forall|j: int| 0 <= j < content.len() ==> content[j] != '\r',
        content.len() > 0 ==> content[content.len() - 1] != '\n',
        split_lines(content).len() > 0 ==> starts_entry(split_lines(content)[0]),
        forall|t: int|
            0 <= t < split_lines(content).len() ==> !all_space(split_lines(content)[t]),
    ensures
        join_entries(parse_file_spec(content)) == content,
{
    let ls = split_lines(content);
    lemma_split_join(content, 0);
    if content.len() == 0 {
        assert(ls =~= Seq::<Seq<char>>::empty());
        assert(parse_file_spec(content) =~= Seq::<LogEntryView>::empty());
        assert(content =~= Seq::<char>::empty());
    } else {
        assert(ls.len() > 0);
        lemma_round_trip_lines(ls);
        assert(content.subrange(0, content.len() as int) =~= content);
    }
}

fn level_of_range(v: &Vec<char>, a: usize, b: usize) -> (r: LogLevel)
    requires
        a <= b <= v@.len(),
    ensures
        r == level_of_token(v@.subrange(a as int, b as int)),
{
    proof {
        let t = v@.subrange(a as int, b as int);
        assert(forall|j: int| 0 <= j < t.len() ==> t[j] == v@[a + j]);
    }
    let len = b - a;
    if len == 4 && (v[a] == 'i' || v[a] == 'I') && (v[a + 1] == 'n' || v[a + 1] == 'N') && (v[a + 2]
        == 'f' || v[a + 2] == 'F') && (v[a + 3] == 'o' || v[a + 3] == 'O') {
        LogLevel::Info
    } else if len == 4 && (v[a] == 'w' || v[a] == 'W') && (v[a + 1] == 'a' || v[a + 1] == 'A') && (
    v[a + 2] == 'r' || v[a + 2] == 'R') && (v[a + 3] == 'n' || v[a + 3] == 'N') {
        LogLevel::Warn
    } else if len == 5 && (v[a] == 'e' || v[a] == 'E') && (v[a + 1] == 'r' || v[a + 1] == 'R') && (
    v[a + 2] == 'r' || v[a + 2] == 'R') && (v[a + 3] == 'o' || v[a + 3] == 'O') && (v[a + 4] == 'r'
        || v[a + 4] == 'R') {
        LogLevel::Error
    } else if len == 5 && (v[a] == 'd' || v[a] == 'D') && (v[a + 1] == 'e' || v[a + 1] == 'E') && (
    v[a + 2] == 'b' || v[a + 2] == 'B') && (v[a + 3] == 'u' || v[a + 3] == 'U') && (v[a + 4] == 'g'
        || v[a + 4] == 'G') {
        LogLevel::Debug
    } else if len == 5 && (v[a] == 't' || v[a] == 'T') && (v[a + 1] == 'r' || v[a + 1] == 'R') && (
    v[a + 2] == 'a' || v[a + 2] == 'A') && (v[a + 3] == 'c' || v[a + 3] == 'C') && (v[a + 4] == 'e'
        || v[a + 4] == 'E') {
        LogLevel::Trace
    } else {
        LogLevel::Unknown
    }
}

/// The line classifier and file parser.
pub struct LogParser {}

impl LogParser {
    pub fn new() -> (r: Self)
        ensures
            r == (LogParser {  }),
    {
        LogParser {  }
    }

    /// Classify one physical line. Never fails: lines matching neither
    /// grammar yield an `Unknown`-level entry carrying the line verbatim.
    pub fn parse_line(&self, line: &str, line_number: usize) -> (e: LogEntry)
        ensures
            e@ == classify_spec(line@, line_number as int),
    {
        let v = chars_vec(line);
        let n = v.len();
        match err_parse_exec(&v) {
            Some(f) => {
                let timestamp = line.substring_char(0, f.ts_end).to_owned();
                let level = level_of_range(&v, f.tok_a, f.tok_b);
                let thread = line.substring_char(f.thr_a, f.thr_b).to_owned();
                let ghost rest = v@.subrange(f.rest_a as int, f.rest_b as int);
                proof {
                    lemma_nonspace_run_suffix(v@, f.rest_a as int, 0);
                }
                let fw = nonspace_run_at(&v, f.rest_a);
                let (class, message) = if f.rest_a + fw == n {
                    proof {
                        assert(class_of_rest(rest) =~= v@.subrange(
                            f.rest_a as int,
                            f.rest_a + fw,
                        ));
                        assert(message_of_rest(rest) =~= rest);
                    }
                    let c = line.substring_char(f.rest_a, n).to_owned();
                    let m = line.substring_char(f.rest_a, n).to_owned();
                    (c, m)
                } else {
                    proof {
                        lemma_space_run_suffix(v@, f.rest_a as int, fw as int);
                        assert(class_of_rest(rest) =~= v@.subrange(
                            f.rest_a as int,
                            f.rest_a + fw,
                        ));
                    }
                    let k = space_run_at(&v, f.rest_a + fw);
                    proof {
                        assert(message_of_rest(rest) =~= v@.subrange(
                            f.rest_a + fw + k,
                            n as int,
                        ));
                    }
                    let c = line.substring_char(f.rest_a, f.rest_a + fw).to_owned();
                    let m = line.substring_char(f.rest_a + fw + k, n).to_owned();
                    (c, m)
                };
                let e = LogEntry {
                    line_number,
                    timestamp: Some(timestamp),
                    level,
                    thread: Some(thread),
                    class: Some(class),
                    message,
                    raw_line: line.to_owned(),
                    is_error_log: true,
                };
                proof {
                    assert(e@ =~= classify_spec(line@, line_number as int));
                }
                e
            },
            None => match access_parse_exec(&v) {
                Some(f) => {
                    let timestamp = line.substring_char(f.ts_a, f.ts_b).to_owned();
                    let mut message = line.substring_char(0, f.ip_end).to_owned();
                    message.append(" - ");
                    message.append(line.substring_char(f.user_a, f.user_b));
                    message.append(" - ");
                    message.append(line.substring_char(f.rest_a, f.rest_b));
                    let e = LogEntry {
                        line_number,
                        timestamp: Some(timestamp),
                        level: LogLevel::Info,
                        thread: None,
                        class: None,
                        message,
                        raw_line: line.to_owned(),
                        is_error_log: false,
                    };
                    proof {
                        assert(e@.message =~= classify_spec(line@, line_number as int).message);
                        assert(e@ =~= classify_spec(line@, line_number as int));
                    }
                    e
                },
                None => {
                    let e = LogEntry {
                        line_number,
                        timestamp: None,
                        level: LogLevel::Unknown,
                        thread: None,
                        class: None,
                        message: line.to_owned(),
                        raw_line: line.to_owned(),
                        is_error_log: false,
                    };
                    proof {
                        assert(e@ =~= classify_spec(line@, line_number as int));
                    }
                    e
                },
            },
        }
    }

    /// Parse a whole text into entries: boundary lines open entries,
    /// following non-blank non-boundary lines are folded into the open
    /// entry's raw text, and lines before the first boundary are
    /// dropped.
    pub fn parse_file(&self, content: &str) -> (entries: Vec<LogEntry>)
        ensures
            entry_views(entries@) == parse_file_spec(content@),
    {
        let lines = split_content(content);
        let ghost lv = line_views(lines@);
        let n = lines.len();
        let mut entries: Vec<LogEntry> = Vec::new();
        let mut i: usize = 0;
        while i < n
            invariant
                0 <= i <= n,
                n == lines@.len(),
                lv == line_views(lines@),
                lv == split_lines(content@),
                entry_views(entries@) + parse_lines_from(lv, i as int) =~= parse_lines_from(
                    lv,
                    0,
                ),
            decreases n - i,
        {
            let ghost entries_prev = entries@;
            if is_entry_boundary(lines[i].as_str()) {
                let mut entry = self.parse_line(lines[i].as_str(), i + 1);
                let mut full_text = lines[i].clone();
                let mut j = i + 1;
                proof {
                    assert(full_text@ =~= join_group(lv, i as int, i + 1));
                }
                while j < n && !is_entry_boundary(lines[j].as_str()) && !is_blank_line(
                    lines[j].as_str(),
                )
                    invariant
                        i < j <= n,
                        n == lines@.len(),
                        lv == line_views(lines@),
                        full_text@ == join_group(lv, i as int, j as int),
                        forall|t: int|
                            i + 1 <= t < j ==> !starts_entry(lv[t]) && !all_space(lv[t]),
                    decreases n - j,
                {
                    proof {
                        lemma_join_group_snoc(lv, i as int, j as int);
                        reveal_strlit("\n");
                        assert("\n"@ =~= seq!['\n']);
                    }
                    let ghost text_prev = full_text@;
                    full_text.append("\n");
                    full_text.append(lines[j].as_str());
                    proof {
                        assert(full_text@ =~= text_prev + seq!['\n'] + lv[j as int]);
                    }
                    j = j + 1;
                }
                proof {
                    lemma_absorb_end(lv, i + 1);
                    let ae = absorb_end(lv, i + 1);
                    if ae < j {
                        assert(!starts_entry(lv[ae]) && !all_space(lv[ae]));
                    }
                    if ae > j {
                        assert(!starts_entry(lv[j as int]) && !all_space(lv[j as int]));
                    }
                    assert(ae == j as int);
                }
                entry.raw_line = full_text;
                proof {
                    assert(entry@ =~= entry_of_group(lv, i as int, j as int));
                }
                entries.push(entry);
                proof {
                    assert(entry_views(entries@) =~= entry_views(entries_prev) + seq![entry@]);
                }
                i = j;
            } else {
                i = i + 1;
            }
        }
        proof {
            assert(entry_views(entries@) =~= parse_file_spec(content@));
        }
        entries
    }
}

impl Default for LogParser {
    fn default() -> (r: Self)
        ensures
            r == (LogParser {  }),
    {
        LogParser::new()
    }
}

} // verus!
