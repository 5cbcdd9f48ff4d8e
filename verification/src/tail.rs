//! The tailing core: the document session that owns the entry
//! sequence and the watermark (the last known file size), the policy
//! for the initial read window, and the decision over a batch of
//! file-watch events.
//!
//! Reading the file and receiving OS events happen outside; this
//! module is handed plain values (the file's text, its size, the
//! events' shapes) and decides everything else.

use vstd::prelude::*;

use crate::parser::{
    classify_spec, entry_views, parse_file_spec, LogEntry, LogEntryView, LogParser,
};
use crate::text::{
    chars_vec, is_space_char, lemma_split_lines_len, lemma_trim_end, line_views, space_char,
    split_content, split_lines, substring_owned, trim_end_spec,
};

verus! {

/// Files above this size are not read whole on the initial load.
pub const LARGE_FILE_THRESHOLD: u64 = 10_000_000;

/// How much of the end of a large file the initial load reads.
pub const TAIL_READ_LEN: u64 = 2_000_000;

/// The byte range `(start, length)` the initial load should read: the
/// whole file, or only its trailing part when the file is large. The
/// window always ends at the file's end.
pub fn read_window(file_size: u64) -> (r: (u64, u64))
    ensures
        file_size > LARGE_FILE_THRESHOLD ==> r.0 == file_size - TAIL_READ_LEN && r.1
            == TAIL_READ_LEN,
        file_size <= LARGE_FILE_THRESHOLD ==> r.0 == 0 && r.1 == file_size,
        r.0 + r.1 == file_size,
{
    if file_size > LARGE_FILE_THRESHOLD {
        (file_size - TAIL_READ_LEN, TAIL_READ_LEN)
    } else {
        (0, file_size)
    }
}

/// How much of a freshly read byte range may be consumed: everything
/// up to and including the last newline byte. Trailing content without
/// a terminating newline is a partially written line; it is left past
/// the watermark and re-read, complete, on a later poll.
pub fn complete_prefix(buf: &Vec<u8>) -> (r: usize)
    ensures
        r <= buf@.len(),
        r == 0 || buf@[r - 1] == 10,
        forall|j: int| r <= j < buf@.len() ==> buf@[j] != 10,
{
    let mut e = buf.len();
    while e > 0 && buf[e - 1] != 10
        invariant
            0 <= e <= buf@.len(),
            forall|j: int| e <= j < buf@.len() ==> buf@[j] != 10,
        decreases e,
    {
        e = e - 1;
    }
    e
}

/// The entries that newly appended lines yield, numbering on from
/// `num` entries already present: each line is trimmed of trailing
/// whitespace, blank lines are skipped, and each remaining line is
/// classified on its own.
pub open spec fn tail_entries_from(ls: Seq<Seq<char>>, j: int, num: int) -> Seq<LogEntryView>
    decreases ls.len() - j,
{
    if j < 0 || j >= ls.len() {
        Seq::empty()
    } else {
        let t = trim_end_spec(ls[j]);
        if t.len() == 0 {
            tail_entries_from(ls, j + 1, num)
        } else {
            seq![classify_spec(t, num + 1)] + tail_entries_from(ls, j + 1, num + 1)
        }
    }
}

/// The entries appended text contributes after `base` existing entries.
pub open spec fn tail_entries(ls: Seq<Seq<char>>, base: int) -> Seq<LogEntryView> {
    tail_entries_from(ls, 0, base)
}

/// One document session: the parsed entry sequence and the watermark,
/// the last known file size, which marks where the next tail read
/// starts.
pub struct LogDocument {
    /// The entries, in file order; append-only between loads.
    pub entries: Vec<LogEntry>,
    /// The last known file size.
    pub watermark: u64,
}

impl LogDocument {
    pub fn new() -> (r: Self)
        ensures
            r.entries@.len() == 0,
            r.watermark == 0,
    {
        LogDocument { entries: Vec::new(), watermark: 0 }
    }

    /// Full (re)initialisation from a file's text: parse everything,
    /// record the file's size as the watermark. Replaces any previous
    /// state.
    pub fn load(&mut self, content: &str, file_size: u64)
        ensures
            entry_views(final(self).entries@) == parse_file_spec(content@),
            final(self).watermark == file_size,
    {
        let parser = LogParser::new();
        self.entries = parser.parse_file(content);
        self.watermark = file_size;
    }

    /// Consume complete lines found appended past the watermark: split
    /// them into lines, classify each non-blank line (trailing
    /// whitespace trimmed) with numbers continuing from the current
    /// entry count, append the results, and move the watermark to the
    /// new size. The caller hands only whole lines — text ending in a
    /// newline, or nothing — and a size covering exactly those bytes;
    /// a trailing fragment without its newline stays past the
    /// watermark for a later poll (see [`complete_prefix`]).
    pub fn apply_append(&mut self, appended: &str, new_size: u64)
        requires
            appended@.len() > 0 ==> appended@[appended@.len() - 1] == '\n',
            old(self).entries@.len() + appended@.len() + 1 <= usize::MAX,
        ensures
            entry_views(final(self).entries@) == entry_views(old(self).entries@) + tail_entries(
                split_lines(appended@),
                old(self).entries@.len() as int,
            ),
            final(self).watermark == new_size,
    {
        let ghost entries0 = self.entries@;
        let ghost n0 = self.entries@.len() as int;
        let lines = split_content(appended);
        let ghost lv = line_views(lines@);
        proof {
            lemma_split_lines_len(appended@, 0);
        }
        let parser = LogParser::new();
        let m = lines.len();
        let mut j: usize = 0;
        while j < m
            invariant
                0 <= j <= m,
                m == lines@.len(),
                lv == line_views(lines@),
                lv == split_lines(appended@),
                n0 == entries0.len(),
                n0 + m + 1 <= usize::MAX + 1,
                self.entries@.len() <= n0 + j,
                entry_views(self.entries@) + tail_entries_from(
                    lv,
                    j as int,
                    self.entries@.len() as int,
                ) =~= entry_views(entries0) + tail_entries_from(lv, 0, n0),
            decreases m - j,
        {
            let ghost es_prev = self.entries@;
            let line_chars = chars_vec(lines[j].as_str());
            let mut e = line_chars.len();
            while e > 0 && space_char(line_chars[e - 1])
                invariant
                    0 <= e <= line_chars@.len(),
                    forall|t: int| e <= t < line_chars@.len() ==> is_space_char(line_chars@[t]),
                decreases e,
            {
                e = e - 1;
            }
            proof {
                lemma_trim_end(line_chars@, e as int);
            }
            if e > 0 {
                let trimmed = substring_owned(lines[j].as_str(), 0, e);
                let num = self.entries.len() + 1;
                let entry = parser.parse_line(trimmed.as_str(), num);
                self.entries.push(entry);
                proof {
                    assert(entry_views(self.entries@) =~= entry_views(es_prev) + seq![entry@]);
                }
            }
            j = j + 1;
        }
        self.watermark = new_size;
        proof {
            assert(tail_entries_from(lv, m as int, self.entries@.len() as int) =~= Seq::<
                LogEntryView,
            >::empty());
            assert(entry_views(self.entries@) =~= entry_views(entries0) + tail_entries(
                lv,
                n0,
            ));
        }
    }
}

/// The shape of one file-watch event, as the core reads it: whether
/// the OS reported a modification, and whether it concerns the watched
/// path.
#[derive(Debug, Clone, Copy, PartialEq, Eq, Structural)]
pub struct WatchEvent {
    pub is_modify: bool,
    pub path_matches: bool,
}

/// The poll decision: a change was seen iff some event in the drained
/// batch is a modification of the watched path.
pub fn modify_event_seen(events: &Vec<WatchEvent>) -> (r: bool)
    ensures
        r == exists|t: int|
            0 <= t < events@.len() && (#[trigger] events@[t]).is_modify && events@[
                t].path_matches,
{
    let n = events.len();
    let mut k: usize = 0;
    while k < n
        invariant
            0 <= k <= n,
            n == events@.len(),
            forall|t: int|
                0 <= t < k ==> !((#[trigger] events@[t]).is_modify && events@[t].path_matches),
        decreases n - k,
    {
        if events[k].is_modify && events[k].path_matches {
            return true;
        }
        k = k + 1;
    }
    false
}

} // verus!
