//! Character-level foundations: the character classes the line grammars
//! are built from, maximal-run scanning, and conversion between strings
//! and character vectors.

use vstd::prelude::*;
use vstd::string::StrSliceExecFns;

verus! {

/// Whitespace: the Unicode `White_Space` characters, the set behind
/// both `char::is_whitespace` and the regex class `\s`.
pub open spec fn is_space_char(c: char) -> bool {
    ||| ('\u{9}' as int <= c as int && c as int <= '\u{d}' as int)
    ||| c == ' '
    ||| c == '\u{85}'
    ||| c == '\u{a0}'
    ||| c == '\u{1680}'
    ||| ('\u{2000}' as int <= c as int && c as int <= '\u{200a}' as int)
    ||| c == '\u{2028}'
    ||| c == '\u{2029}'
    ||| c == '\u{202f}'
    ||| c == '\u{205f}'
    ||| c == '\u{3000}'
}

/// A decimal digit. Deliberately the ASCII digits only, a narrowing of
/// the regex class `\d`: the grammars use digits solely in dates,
/// times and time zones, which are written with ASCII digits.
pub open spec fn is_digit_char(c: char) -> bool {
    '0' as int <= c as int && c as int <= '9' as int
}

/// A word character: letter, digit or underscore. Deliberately the
/// ASCII set only, a narrowing of the regex class `\w`: the grammars
/// use word characters solely for the level token (compared against
/// the five ASCII level names) and the month abbreviation.
pub open spec fn is_word_char(c: char) -> bool {
    ('a' as int <= c as int && c as int <= 'z' as int)
        || ('A' as int <= c as int && c as int <= 'Z' as int)
        || is_digit_char(c)
        || c == '_'
}

pub fn space_char(c: char) -> (r: bool)
    ensures
        r == is_space_char(c),
{
    ('\u{9}' <= c && c <= '\u{d}') || c == ' ' || c == '\u{85}' || c == '\u{a0}' || c == '\u{1680}'
        || ('\u{2000}' <= c && c <= '\u{200a}') || c == '\u{2028}' || c == '\u{2029}'
        || c == '\u{202f}' || c == '\u{205f}' || c == '\u{3000}'
}

pub fn digit_char(c: char) -> (r: bool)
    ensures
        r == is_digit_char(c),
{
    '0' <= c && c <= '9'
}

pub fn word_char(c: char) -> (r: bool)
    ensures
        r == is_word_char(c),
{
    ('a' <= c && c <= 'z') || ('A' <= c && c <= 'Z') || digit_char(c) || c == '_'
}

/// Length of the maximal run of whitespace characters starting at `i`.
pub open spec fn space_run(s: Seq<char>, i: int) -> int
    decreases s.len() - i,
{
    if i < 0 || i >= s.len() || !is_space_char(s[i]) {
        0
    } else {
        1 + space_run(s, i + 1)
    }
}

/// Length of the maximal run of word characters starting at `i`.
pub open spec fn word_run(s: Seq<char>, i: int) -> int
    decreases s.len() - i,
{
    if i < 0 || i >= s.len() || !is_word_char(s[i]) {
        0
    } else {
        1 + word_run(s, i + 1)
    }
}

/// Length of the maximal run of non-whitespace characters starting at `i`.
pub open spec fn nonspace_run(s: Seq<char>, i: int) -> int
    decreases s.len() - i,
{
    if i < 0 || i >= s.len() || is_space_char(s[i]) {
        0
    } else {
        1 + nonspace_run(s, i + 1)
    }
}

/// Length of the maximal run of characters other than `]` starting at `i`.
pub open spec fn nonbracket_run(s: Seq<char>, i: int) -> int
    decreases s.len() - i,
{
    if i < 0 || i >= s.len() || s[i] == ']' {
        0
    } else {
        1 + nonbracket_run(s, i + 1)
    }
}

pub fn space_run_at(v: &Vec<char>, from: usize) -> (r: usize)
    requires
        from <= v@.len(),
    ensures
        from + r <= v@.len(),
        r == space_run(v@, from as int),
{
    let mut i = from;
    while i < v.len() && space_char(v[i])
        invariant
            from <= i <= v@.len(),
            space_run(v@, from as int) == i - from + space_run(v@, i as int),
        decreases v@.len() - i,
    {
        i = i + 1;
    }
    i - from
}

pub fn word_run_at(v: &Vec<char>, from: usize) -> (r: usize)
    requires
        from <= v@.len(),
    ensures
        from + r <= v@.len(),
        r == word_run(v@, from as int),
{
    let mut i = from;
    while i < v.len() && word_char(v[i])
        invariant
            from <= i <= v@.len(),
            word_run(v@, from as int) == i - from + word_run(v@, i as int),
        decreases v@.len() - i,
    {
        i = i + 1;
    }
    i - from
}

pub fn nonspace_run_at(v: &Vec<char>, from: usize) -> (r: usize)
    requires
        from <= v@.len(),
    ensures
        from + r <= v@.len(),
        r == nonspace_run(v@, from as int),
{
    let mut i = from;
    while i < v.len() && !space_char(v[i])
        invariant
            from <= i <= v@.len(),
            nonspace_run(v@, from as int) == i - from + nonspace_run(v@, i as int),
        decreases v@.len() - i,
    {
        i = i + 1;
    }
    i - from
}

pub fn nonbracket_run_at(v: &Vec<char>, from: usize) -> (r: usize)
    requires
        from <= v@.len(),
    ensures
        from + r <= v@.len(),
        r == nonbracket_run(v@, from as int),
{
    let mut i = from;
    while i < v.len() && v[i] != ']'
        invariant
            from <= i <= v@.len(),
            nonbracket_run(v@, from as int) == i - from + nonbracket_run(v@, i as int),
        decreases v@.len() - i,
    {
        i = i + 1;
    }
    i - from
}

/// A run of whitespace within the suffix of `s` from `a` is a run
/// within `s` itself.
pub proof fn lemma_space_run_suffix(s: Seq<char>, a: int, t: int)
    requires
        0 <= a <= s.len(),
        0 <= t,
    ensures
        space_run(s.subrange(a, s.len() as int), t) == space_run(s, a + t),
    decreases s.len() - a - t,
{
    let sub = s.subrange(a, s.len() as int);
    if t < sub.len() && is_space_char(sub[t]) {
        lemma_space_run_suffix(s, a, t + 1);
    }
}

/// A run of non-whitespace within the suffix of `s` from `a` is a run
/// within `s` itself.
pub proof fn lemma_nonspace_run_suffix(s: Seq<char>, a: int, t: int)
    requires
        0 <= a <= s.len(),
        0 <= t,
    ensures
        nonspace_run(s.subrange(a, s.len() as int), t) == nonspace_run(s, a + t),
    decreases s.len() - a - t,
{
    let sub = s.subrange(a, s.len() as int);
    if t < sub.len() && !is_space_char(sub[t]) {
        lemma_nonspace_run_suffix(s, a, t + 1);
    }
}

/// A sequence with its trailing whitespace removed.
pub open spec fn trim_end_spec(s: Seq<char>) -> Seq<char>
    decreases s.len(),
{
    if s.len() > 0 && is_space_char(s[s.len() - 1]) {
        trim_end_spec(s.subrange(0, s.len() - 1))
    } else {
        s
    }
}

/// Trailing whitespace ends exactly at the last non-whitespace
/// character.
pub proof fn lemma_trim_end(s: Seq<char>, e: int)
    requires
        0 <= e <= s.len(),
        forall|t: int| e <= t < s.len() ==> is_space_char(s[t]),
        e > 0 ==> !is_space_char(s[e - 1]),
    ensures
        trim_end_spec(s) == s.subrange(0, e),
    decreases s.len(),
{
    if s.len() > e {
        assert(is_space_char(s[s.len() - 1]));
        let shorter = s.subrange(0, s.len() - 1);
        lemma_trim_end(shorter, e);
        assert(shorter.subrange(0, e) =~= s.subrange(0, e));
    } else {
        assert(s.subrange(0, e) =~= s);
    }
}

/// A text has at most one line per character, plus one.
pub proof fn lemma_split_lines_len(s: Seq<char>, i: int)
    requires
        0 <= i <= s.len(),
    ensures
        split_lines_from(s, i).len() <= s.len() - i + 1,
    decreases s.len() - i,
{
    if i < s.len() {
        lemma_next_newline(s, i);
        let k = next_newline(s, i);
        if k < s.len() {
            lemma_split_lines_len(s, k + 1);
        }
    }
}

/// The lowercase form of a character sequence, as `str::to_lowercase`
/// computes it: a function of the characters alone.
pub uninterp spec fn lower_of(s: Seq<char>) -> Seq<char>;

/// Relies on str::to_lowercase: the returned string depends on the
/// input's characters alone.
#[verifier::external_body]
pub fn to_lower(s: &str) -> (r: String)
    ensures
        r@ == lower_of(s@),
{
    s.to_lowercase()
}

/// Position of the first newline at or after `i`, or the length of `s`
/// when there is none.
pub open spec fn next_newline(s: Seq<char>, i: int) -> int
    decreases s.len() - i,
{
    if i >= s.len() {
        s.len() as int
    } else if i >= 0 && s[i] == '\n' {
        i
    } else {
        next_newline(s, i + 1)
    }
}

pub proof fn lemma_next_newline(s: Seq<char>, i: int)
    requires
        0 <= i <= s.len(),
    ensures
        i <= next_newline(s, i) <= s.len(),
        forall|j: int| i <= j < next_newline(s, i) ==> s[j] != '\n',
        next_newline(s, i) < s.len() ==> s[next_newline(s, i)] == '\n',
    decreases s.len() - i,
{
    if i < s.len() && s[i] != '\n' {
        lemma_next_newline(s, i + 1);
    }
}

/// A line with its terminator removed: a carriage return directly
/// before the newline is dropped with it.
pub open spec fn strip_cr(l: Seq<char>) -> Seq<char> {
    if l.len() > 0 && l[l.len() - 1] == '\r' {
        l.subrange(0, l.len() - 1)
    } else {
        l
    }
}

#[via_fn]
proof fn split_lines_from_decreases(s: Seq<char>, i: int) {
    if 0 <= i < s.len() {
        lemma_next_newline(s, i);
    }
}

/// The physical lines of `s` from position `i` on: segments separated
/// by newlines, each with its terminator (`\n` or `\r\n`) removed; a
/// final segment without a terminator counts as a line, an empty one
/// does not.
pub open spec fn split_lines_from(s: Seq<char>, i: int) -> Seq<Seq<char>>
    decreases s.len() - i,
    via split_lines_from_decreases
{
    if i < 0 || i >= s.len() {
        Seq::empty()
    } else {
        let k = next_newline(s, i);
        if k == s.len() {
            seq![s.subrange(i, s.len() as int)]
        } else {
            seq![strip_cr(s.subrange(i, k))] + split_lines_from(s, k + 1)
        }
    }
}

/// The physical lines of a whole text.
pub open spec fn split_lines(s: Seq<char>) -> Seq<Seq<char>> {
    split_lines_from(s, 0)
}

/// The views of a vector of owned lines.
pub open spec fn line_views(ls: Seq<String>) -> Seq<Seq<char>> {
    ls.map_values(|l: String| l@)
}

/// Split a text into its physical lines.
pub fn split_content(content: &str) -> (r: Vec<String>)
    ensures
        line_views(r@) == split_lines(content@),
{
    let v = chars_vec(content);
    let n = v.len();
    let mut r: Vec<String> = Vec::new();
    let mut i: usize = 0;
    while i < n
        invariant
            0 <= i <= n,
            n == v@.len(),
            v@ == content@,
            line_views(r@) + split_lines_from(content@, i as int) =~= split_lines(content@),
        decreases n - i,
    {
        let ghost r_prev = r@;
        let ghost i_prev = i as int;
        // find the end of the current line
        let mut k = i;
        while k < n && v[k] != '\n'
            invariant
                i <= k <= n,
                n == v@.len(),
                forall|t: int| i <= t < k ==> v@[t] != '\n',
            decreases n - k,
        {
            k = k + 1;
        }
        proof {
            lemma_next_newline(v@, i as int);
            if k < n {
                assert(v@[k as int] == '\n');
            }
            assert(next_newline(v@, i as int) == k as int);
        }
        if k == n {
            let line = substring_owned(content, i, n);
            r.push(line);
            proof {
                assert(line_views(r@) =~= line_views(r_prev) + seq![
                    content@.subrange(i_prev, n as int),
                ]);
            }
            i = n;
        } else {
            let b = if k > i && v[k - 1] == '\r' {
                k - 1
            } else {
                k
            };
            proof {
                assert(strip_cr(content@.subrange(i_prev, k as int)) =~= content@.subrange(
                    i_prev,
                    b as int,
                ));
            }
            let line = substring_owned(content, i, b);
            r.push(line);
            proof {
                assert(line_views(r@) =~= line_views(r_prev) + seq![
                    content@.subrange(i_prev, b as int),
                ]);
            }
            i = k + 1;
        }
    }
    proof {
        assert(line_views(r@) =~= split_lines(content@));
    }
    r
}

/// An owned copy of the character range `[from, to)` of `s`.
pub fn substring_owned(s: &str, from: usize, to: usize) -> (r: String)
    requires
        from <= to <= s@.len(),
    ensures
        r@ == s@.subrange(from as int, to as int),
{
    s.substring_char(from, to).to_owned()
}

/// The characters of a string, as an indexable vector.
pub fn chars_vec(s: &str) -> (r: Vec<char>)
    ensures
        r@ == s@,
{
    let mut r: Vec<char> = Vec::new();
    for c in it: s.chars()
        invariant
            r@ =~= it.seq().subrange(0, it.index() as int),
            it.seq() == s@,
    {
        r.push(c);
    }
    proof {
        assert(r@ =~= s@);
    }
    r
}

} // verus!
