//! The search engine: incremental match discovery across entries,
//! plain-text or regex, with a current-match cursor that navigates the
//! ordered match list with wraparound.

use vstd::prelude::*;

use crate::parser::LogEntry;
use crate::pattern::{regex_compiles, regex_spans, CompiledPattern};
use crate::text::{chars_vec, lower_of, to_lower};
use vstd::string::StringExecFns;
use vstd::utf8::encode_utf8;

verus! {

/// A text under the chosen case regime: itself, or its lowercase form.
pub open spec fn fold_case(cs: bool, s: Seq<char>) -> Seq<char> {
    if cs {
        s
    } else {
        lower_of(s)
    }
}

/// The pattern actually compiled: the query, with case-insensitive
/// semantics asked for by prefix when case is folded.
pub open spec fn full_pattern(q: Seq<char>, cs: bool) -> Seq<char> {
    if cs {
        q
    } else {
        "(?i)"@ + q
    }
}

/// Positions `>= i` at which `n` occurs in `h`, in increasing order.
/// Occurrences may overlap: every position is examined.
pub open spec fn occ_from(h: Seq<char>, n: Seq<char>, i: int) -> Seq<int>
    decreases h.len() + 1 - i,
{
    if i < 0 || i + n.len() > h.len() {
        Seq::empty()
    } else if h.subrange(i, i + n.len() as int) == n {
        seq![i] + occ_from(h, n, i + 1)
    } else {
        occ_from(h, n, i + 1)
    }
}

/// All positions at which `n` occurs in `h`, in increasing order.
pub open spec fn occurrences(h: Seq<char>, n: Seq<char>) -> Seq<int> {
    occ_from(h, n, 0)
}

/// Whether an entry's text matches the query under the given options.
pub open spec fn entry_matched(q: Seq<char>, cs: bool, rx: bool, text: Seq<char>) -> bool {
    if rx {
        regex_spans(full_pattern(q, cs), text).len() > 0
    } else {
        occurrences(fold_case(cs, text), fold_case(cs, q)).len() > 0
    }
}

/// The indices (from `i` on) of the texts that match, in order.
pub open spec fn match_indices(
    q: Seq<char>,
    cs: bool,
    rx: bool,
    texts: Seq<Seq<char>>,
    i: int,
) -> Seq<usize>
    decreases texts.len() - i,
{
    if i < 0 || i >= texts.len() {
        Seq::empty()
    } else if entry_matched(q, cs, rx, texts[i]) {
        seq![i as usize] + match_indices(q, cs, rx, texts, i + 1)
    } else {
        match_indices(q, cs, rx, texts, i + 1)
    }
}

/// The raw texts of a sequence of entries.
pub open spec fn raw_texts(es: Seq<LogEntry>) -> Seq<Seq<char>> {
    es.map_values(|e: LogEntry| e.raw_line@)
}

/// Law: the match list is an ordered set of entry indices. Matching
/// from `i` on yields indices that are strictly increasing, at least
/// `i`, and within the entry sequence.
pub proof fn lemma_match_indices_ordered(
    q: Seq<char>,
    cs: bool,
    rx: bool,
    texts: Seq<Seq<char>>,
    i: int,
)
    requires
        0 <= i,
        texts.len() <= usize::MAX,
    ensures
        forall|t: int|
            0 <= t < match_indices(q, cs, rx, texts, i).len() ==> i <= (
            #[trigger] match_indices(q, cs, rx, texts, i)[t]) < texts.len(),
        forall|t1: int, t2: int|
            0 <= t1 < t2 < match_indices(q, cs, rx, texts, i).len() ==> (#[trigger] match_indices(
                q,
                cs,
                rx,
                texts,
                i,
            )[t1]) < (#[trigger] match_indices(q, cs, rx, texts, i)[t2]),
    decreases texts.len() - i,
{
    if i < texts.len() {
        lemma_match_indices_ordered(q, cs, rx, texts, i + 1);
        let ms = match_indices(q, cs, rx, texts, i);
        let rest = match_indices(q, cs, rx, texts, i + 1);
        if entry_matched(q, cs, rx, texts[i]) {
            assert(ms =~= seq![i as usize] + rest);
            assert(forall|t: int| 1 <= t < ms.len() ==> ms[t] == rest[t - 1]);
        } else {
            assert(ms =~= rest);
        }
    }
}

/// Whether `ps` is the span list the engine records for one matching
/// text. In regex mode: the crate's spans verbatim — pairs of byte
/// offsets within the raw text, each within its byte length. In plain
/// mode: one span per occurrence of the folded query in the folded
/// text, each a pair of character offsets into the folded text, as
/// wide as the folded query. Either way every span is well-formed:
/// its start does not exceed its end, which stays within the searched
/// text.
pub open spec fn spans_match(
    q: Seq<char>,
    cs: bool,
    rx: bool,
    text: Seq<char>,
    ps: Seq<(usize, usize)>,
) -> bool {
    if rx {
        &&& ps == regex_spans(full_pattern(q, cs), text)
        &&& forall|t: int|
            0 <= t < ps.len() ==> (#[trigger] ps[t]).0 <= ps[t].1 <= encode_utf8(text).len()
    } else {
        let h = fold_case(cs, text);
        let n = fold_case(cs, q);
        &&& ps.len() == occurrences(h, n).len()
        &&& forall|t: int|
            0 <= t < ps.len() ==> (#[trigger] ps[t]).0 as int == occurrences(h, n)[t] && (ps[
            t]).1 as int == occurrences(h, n)[t] + n.len()
        &&& forall|t: int| 0 <= t < ps.len() ==> (#[trigger] ps[t]).0 <= ps[t].1 <= h.len()
    }
}

/// One span per occurrence of `nd` in `h`, each `(position,
/// position + |nd|)`, in increasing order of position.
fn plain_spans_exec(h: &Vec<char>, nd: &Vec<char>) -> (r: Vec<(usize, usize)>)
    ensures
        r@.len() == occurrences(h@, nd@).len(),
        forall|t: int|
            0 <= t < r@.len() ==> (#[trigger] r@[t]).0 as int == occurrences(h@, nd@)[t] && (r@[
            t]).1 as int == occurrences(h@, nd@)[t] + nd@.len(),
        forall|t: int| 0 <= t < r@.len() ==> (#[trigger] r@[t]).0 <= r@[t].1 <= h@.len(),
{
    let hl = h.len();
    let nl = nd.len();
    let mut r: Vec<(usize, usize)> = Vec::new();
    let ghost occ = occurrences(h@, nd@);
    let mut i: usize = 0;
    while i < hl
        invariant
            0 <= i <= hl,
            hl == h@.len(),
            nl == nd@.len(),
            occ == occurrences(h@, nd@),
            r@.map_values(|p: (usize, usize)| p.0 as int) + occ_from(h@, nd@, i as int) =~= occ,
            forall|t: int| 0 <= t < r@.len() ==> (#[trigger] r@[t]).1 == r@[t].0 + nl,
            forall|t: int| 0 <= t < r@.len() ==> (#[trigger] r@[t]).1 <= hl,
        decreases hl - i,
    {
        let ghost r_prev = r@;
        if nl <= hl - i {
            let mut j: usize = 0;
            let mut eq = true;
            while j < nl
                invariant
                    0 <= j <= nl,
                    nl <= hl - i,
                    i + nl <= hl,
                    hl == h@.len(),
                    nl == nd@.len(),
                    eq == (forall|t: int| 0 <= t < j ==> h@[i + t] == nd@[t]),
                decreases nl - j,
            {
                if h[i + j] != nd[j] {
                    eq = false;
                }
                j = j + 1;
            }
            if eq {
                proof {
                    assert(h@.subrange(i as int, i + nd@.len() as int) =~= nd@);
                }
                r.push((i, i + nl));
                proof {
                    assert(r@.map_values(|p: (usize, usize)| p.0 as int) =~= r_prev.map_values(
                        |p: (usize, usize)| p.0 as int,
                    ) + seq![i as int]);
                }
            } else {
                proof {
                    let w = choose|t: int| 0 <= t < nd@.len() && h@[i + t] != nd@[t];
                    assert(h@.subrange(i as int, i + nd@.len() as int)[w] == h@[i + w]);
                    assert(h@.subrange(i as int, i + nd@.len() as int) != nd@);
                }
            }
        }
        i = i + 1;
    }
    if nl == 0 {
        let ghost r_prev = r@;
        r.push((hl, hl));
        proof {
            assert(h@.subrange(hl as int, hl as int) =~= nd@);
            assert(occ_from(h@, nd@, hl + 1) =~= Seq::<int>::empty());
            assert(occ_from(h@, nd@, hl as int) =~= seq![hl as int] + occ_from(h@, nd@, hl + 1));
            assert(occ_from(h@, nd@, hl as int) =~= seq![hl as int]);
            assert(r@.map_values(|p: (usize, usize)| p.0 as int) =~= r_prev.map_values(
                |p: (usize, usize)| p.0 as int,
            ) + seq![hl as int]);
        }
    }
    proof {
        assert(r@.map_values(|p: (usize, usize)| p.0 as int) =~= occ);
        assert(forall|t: int|
            0 <= t < r@.len() ==> (#[trigger] r@[t]).0 as int == r@.map_values(
                |p: (usize, usize)| p.0 as int,
            )[t]);
    }
    r
}

/// State of the search engine: the query with its options, and the
/// results of the last rebuild over the entry sequence.
#[derive(Debug, Clone)]
pub struct SearchState {
    pub query: String,
    pub case_sensitive: bool,
    pub use_regex: bool,
    pub show_only_matches: bool,
    /// Indices of the matching entries, in increasing order.
    pub matches: Vec<usize>,
    /// Cursor into `matches`.
    pub current_match: Option<usize>,
    /// For each matching entry, its index with the recorded highlight
    /// spans. In plain-text mode a span is a pair of character offsets
    /// into the case-folded text, as wide as the folded query; in
    /// regex mode it is the pair of byte offsets the regex crate
    /// reports within the raw text.
    pub match_positions: Vec<(usize, Vec<(usize, usize)>)>,
}

impl SearchState {
    /// The cursor, when set, points into the match list.
    pub open spec fn cursor_in_range(self) -> bool {
        match self.current_match {
            Some(c) => (c as int) < self.matches@.len(),
            None => true,
        }
    }

    /// No results: empty match list, no cursor.
    pub open spec fn results_empty(self) -> bool {
        &&& self.matches@.len() == 0
        &&& self.match_positions@.len() == 0
        &&& self.current_match is None
    }

    /// The results describe `texts` exactly: the match list holds
    /// precisely the matching indices in increasing order, each with
    /// its span list, and the cursor sits on the first match.
    pub open spec fn results_valid_for(self, texts: Seq<Seq<char>>) -> bool {
        &&& self.matches@ == match_indices(
            self.query@,
            self.case_sensitive,
            self.use_regex,
            texts,
            0,
        )
        &&& self.match_positions@.len() == self.matches@.len()
        &&& forall|k: int|
            0 <= k < self.matches@.len() ==> (#[trigger] self.match_positions@[k]).0
                == self.matches@[k] && spans_match(
                self.query@,
                self.case_sensitive,
                self.use_regex,
                texts[self.matches@[k] as int],
                self.match_positions@[k].1@,
            )
        &&& self.current_match == (if self.matches@.len() > 0 {
            Some(0usize)
        } else {
            None::<usize>
        })
    }

    pub fn new() -> (r: Self)
        ensures
            r.query@ == Seq::<char>::empty(),
            !r.case_sensitive,
            !r.use_regex,
            !r.show_only_matches,
            r.results_empty(),
            r.cursor_in_range(),
    {
        SearchState {
            query: String::new(),
            case_sensitive: false,
            use_regex: false,
            show_only_matches: false,
            matches: Vec::new(),
            current_match: None,
            match_positions: Vec::new(),
        }
    }

    /// Rebuild the match list from scratch against `entries`. An empty
    /// query, or a regex query whose pattern does not compile, yields
    /// no results; otherwise the results describe the entries exactly
    /// and the cursor is reset to the first match.
    pub fn update_search(&mut self, entries: &Vec<LogEntry>)
        ensures
            final(self).query == old(self).query,
            final(self).case_sensitive == old(self).case_sensitive,
            final(self).use_regex == old(self).use_regex,
            final(self).show_only_matches == old(self).show_only_matches,
            final(self).cursor_in_range(),
            old(self).query@.len() == 0 ==> final(self).results_empty(),
            old(self).query@.len() > 0 && old(self).use_regex && !regex_compiles(
                full_pattern(old(self).query@, old(self).case_sensitive),
            ) ==> final(self).results_empty(),
            old(self).query@.len() > 0 && (!old(self).use_regex || regex_compiles(
                full_pattern(old(self).query@, old(self).case_sensitive),
            )) ==> final(self).results_valid_for(raw_texts(entries@)),
    {
        self.matches = Vec::new();
        self.current_match = None;
        self.match_positions = Vec::new();
        if self.query.as_str().is_empty() {
            return;
        }
        let ghost query0 = self.query;
        let ghost cs = self.case_sensitive;
        let ghost rx = self.use_regex;
        let ghost som = self.show_only_matches;
        let ghost q = self.query@;
        let ghost texts = raw_texts(entries@);
        let n = entries.len();
        if self.use_regex {
            let pattern_string = if self.case_sensitive {
                self.query.clone()
            } else {
                let mut p = "(?i)".to_owned();
                p.append(self.query.as_str());
                p
            };
            proof {
                assert(pattern_string@ == full_pattern(q, cs));
            }
            match CompiledPattern::compile(pattern_string.as_str()) {
                None => {},
                Some(cp) => {
                    let mut i: usize = 0;
                    while i < n
                        invariant
                            0 <= i <= n,
                            n == entries@.len(),
                            texts == raw_texts(entries@),
                            cp.pattern() == full_pattern(q, cs),
                            self.query == query0,
                            self.query@ == q,
                            self.case_sensitive == cs,
                            self.use_regex == rx,
                            self.show_only_matches == som,
                            rx,
                            self.current_match is None,
                            self.matches@ + match_indices(q, cs, rx, texts, i as int)
                                =~= match_indices(q, cs, rx, texts, 0),
                            self.match_positions@.len() == self.matches@.len(),
                            forall|k: int|
                                0 <= k < self.matches@.len() ==> (
                                #[trigger] self.match_positions@[k]).0 == self.matches@[k]
                                    && spans_match(
                                    q,
                                    cs,
                                    rx,
                                    texts[self.matches@[k] as int],
                                    self.match_positions@[k].1@,
                                ),
                        decreases n - i,
                    {
                        let ghost m_prev = self.matches@;
                        proof {
                            assert(texts[i as int] == entries@[i as int].raw_line@);
                        }
                        let ps = cp.find_spans(entries[i].raw_line.as_str());
                        if ps.len() > 0 {
                            self.matches.push(i);
                            self.match_positions.push((i, ps));
                            proof {
                                assert(entry_matched(q, cs, rx, texts[i as int]));
                                assert(match_indices(q, cs, rx, texts, i as int) =~= seq![i]
                                    + match_indices(q, cs, rx, texts, i + 1));
                            }
                        } else {
                            proof {
                                assert(!entry_matched(q, cs, rx, texts[i as int]));
                                assert(match_indices(q, cs, rx, texts, i as int)
                                    =~= match_indices(q, cs, rx, texts, i + 1));
                            }
                        }
                        i = i + 1;
                    }
                    if self.matches.len() > 0 {
                        self.current_match = Some(0);
                    }
                    proof {
                        assert(match_indices(q, cs, rx, texts, n as int)
                            =~= Seq::<usize>::empty());
                        assert(self.matches@ =~= match_indices(q, cs, rx, texts, 0));
                    }
                },
            }
        } else {
            let needle_string = if self.case_sensitive {
                self.query.clone()
            } else {
                to_lower(self.query.as_str())
            };
            let nd = chars_vec(needle_string.as_str());
            proof {
                assert(nd@ == fold_case(cs, q));
            }
            let mut i: usize = 0;
            while i < n
                invariant
                    0 <= i <= n,
                    n == entries@.len(),
                    texts == raw_texts(entries@),
                    nd@ == fold_case(cs, q),
                    self.query == query0,
                    self.query@ == q,
                    self.case_sensitive == cs,
                    self.use_regex == rx,
                    self.show_only_matches == som,
                    !rx,
                    self.current_match is None,
                    self.matches@ + match_indices(q, cs, rx, texts, i as int) =~= match_indices(
                        q,
                        cs,
                        rx,
                        texts,
                        0,
                    ),
                    self.match_positions@.len() == self.matches@.len(),
                    forall|k: int|
                        0 <= k < self.matches@.len() ==> (#[trigger] self.match_positions@[k]).0
                            == self.matches@[k] && spans_match(
                            q,
                            cs,
                            rx,
                            texts[self.matches@[k] as int],
                            self.match_positions@[k].1@,
                        ),
                decreases n - i,
            {
                proof {
                    assert(texts[i as int] == entries@[i as int].raw_line@);
                }
                let hay_string = if self.case_sensitive {
                    entries[i].raw_line.clone()
                } else {
                    to_lower(entries[i].raw_line.as_str())
                };
                let hv = chars_vec(hay_string.as_str());
                proof {
                    assert(hv@ == fold_case(cs, texts[i as int]));
                }
                let ps = plain_spans_exec(&hv, &nd);
                if ps.len() > 0 {
                    self.matches.push(i);
                    self.match_positions.push((i, ps));
                    proof {
                        assert(entry_matched(q, cs, rx, texts[i as int]));
                        assert(match_indices(q, cs, rx, texts, i as int) =~= seq![i]
                            + match_indices(q, cs, rx, texts, i + 1));
                    }
                } else {
                    proof {
                        assert(!entry_matched(q, cs, rx, texts[i as int]));
                        assert(match_indices(q, cs, rx, texts, i as int) =~= match_indices(
                            q,
                            cs,
                            rx,
                            texts,
                            i + 1,
                        ));
                    }
                }
                i = i + 1;
            }
            if self.matches.len() > 0 {
                self.current_match = Some(0);
            }
            proof {
                assert(match_indices(q, cs, rx, texts, n as int) =~= Seq::<usize>::empty());
                assert(self.matches@ =~= match_indices(q, cs, rx, texts, 0));
            }
        }
    }

    /// Advance the cursor by one match, wrapping past the end to the
    /// first; from no cursor, settle on the first match. A no-op when
    /// the match list is empty.
    pub fn next_match(&mut self)
        requires
            old(self).cursor_in_range(),
        ensures
            *final(self) == (SearchState {
                current_match: final(self).current_match,
                ..*old(self)
            }),
            final(self).current_match == (match old(self).current_match {
                Some(c) => if c + 1 == old(self).matches@.len() {
                    Some(0usize)
                } else {
                    Some((c + 1) as usize)
                },
                None => if old(self).matches@.len() > 0 {
                    Some(0usize)
                } else {
                    None::<usize>
                },
            }),
            final(self).cursor_in_range(),
    {
        match self.current_match {
            Some(current) => {
                let len = self.matches.len();
                let next = if current + 1 == len {
                    0
                } else {
                    current + 1
                };
                self.current_match = Some(next);
            },
            None => {
                if self.matches.len() > 0 {
                    self.current_match = Some(0);
                }
            },
        }
    }

    /// Retreat the cursor by one match, wrapping past the start to the
    /// last; from no cursor, settle on the last match. A no-op when
    /// the match list is empty.
    pub fn prev_match(&mut self)
        requires
            old(self).cursor_in_range(),
        ensures
            *final(self) == (SearchState {
                current_match: final(self).current_match,
                ..*old(self)
            }),
            final(self).current_match == (match old(self).current_match {
                Some(c) => if c == 0 {
                    Some((old(self).matches@.len() - 1) as usize)
                } else {
                    Some((c - 1) as usize)
                },
                None => if old(self).matches@.len() > 0 {
                    Some((old(self).matches@.len() - 1) as usize)
                } else {
                    None::<usize>
                },
            }),
            final(self).cursor_in_range(),
    {
        match self.current_match {
            Some(current) => {
                let prev = if current == 0 {
                    self.matches.len() - 1
                } else {
                    current - 1
                };
                self.current_match = Some(prev);
            },
            None => {
                if self.matches.len() > 0 {
                    self.current_match = Some(self.matches.len() - 1);
                }
            },
        }
    }

    /// The entry index the cursor points at, if any.
    pub open spec fn spec_current_match_index(self) -> Option<usize> {
        match self.current_match {
            Some(c) => if (c as int) < self.matches@.len() {
                Some(self.matches@[c as int])
            } else {
                None
            },
            None => None,
        }
    }

    pub fn get_current_match_index(&self) -> (r: Option<usize>)
        ensures
            r == self.spec_current_match_index(),
    {
        match self.current_match {
            Some(c) => {
                if c < self.matches.len() {
                    Some(self.matches[c])
                } else {
                    None
                }
            },
            None => None,
        }
    }

    /// Whether the entry at `line_index` is in the match list.
    pub fn is_match(&self, line_index: usize) -> (r: bool)
        ensures
            r == self.matches@.contains(line_index),
    {
        let n = self.matches.len();
        let mut k: usize = 0;
        while k < n
            invariant
                0 <= k <= n,
                n == self.matches@.len(),
                forall|t: int| 0 <= t < k ==> self.matches@[t] != line_index,
            decreases n - k,
        {
            if self.matches[k] == line_index {
                return true;
            }
            k = k + 1;
        }
        false
    }

    /// Whether the cursor currently points at the entry `line_index`.
    pub fn is_current_match(&self, line_index: usize) -> (r: bool)
        ensures
            r == (self.spec_current_match_index() == Some(line_index)),
    {
        match self.get_current_match_index() {
            Some(ix) => ix == line_index,
            None => false,
        }
    }

    /// The span list recorded for the first result entry with index
    /// `ix`, if any.
    pub open spec fn spec_match_positions(
        mps: Seq<(usize, Vec<(usize, usize)>)>,
        ix: usize,
    ) -> Option<Seq<(usize, usize)>>
        decreases mps.len(),
    {
        if mps.len() == 0 {
            None
        } else if mps[0].0 == ix {
            Some(mps[0].1@)
        } else {
            Self::spec_match_positions(mps.drop_first(), ix)
        }
    }

    /// The recorded highlight spans for the entry at `line_index`.
    pub fn get_match_positions(&self, line_index: usize) -> (r: Option<&Vec<(usize, usize)>>)
        ensures
            match r {
                Some(ps) => Self::spec_match_positions(self.match_positions@, line_index)
                    == Some(ps@),
                None => Self::spec_match_positions(self.match_positions@, line_index) is None,
            },
    {
        let n = self.match_positions.len();
        proof {
            assert(self.match_positions@.skip(0) =~= self.match_positions@);
        }
        let mut k: usize = 0;
        while k < n
            invariant
                0 <= k <= n,
                n == self.match_positions@.len(),
                Self::spec_match_positions(self.match_positions@, line_index)
                    == Self::spec_match_positions(
                    self.match_positions@.skip(k as int),
                    line_index,
                ),
            decreases n - k,
        {
            proof {
                assert(self.match_positions@.skip(k as int)[0] == self.match_positions@[
                    k as int]);
                assert(self.match_positions@.skip(k as int).drop_first()
                    =~= self.match_positions@.skip(k + 1));
            }
            if self.match_positions[k].0 == line_index {
                return Some(&self.match_positions[k].1);
            }
            k = k + 1;
        }
        proof {
            assert(self.match_positions@.skip(n as int) =~= Seq::<
                (usize, Vec<(usize, usize)>),
            >::empty());
        }
        None
    }
}

impl Default for SearchState {
    fn default() -> (r: Self)
        ensures
            r.query@ == Seq::<char>::empty(),
            !r.case_sensitive,
            !r.use_regex,
            !r.show_only_matches,
            r.results_empty(),
    {
        SearchState::new()
    }
}

} // verus!
