//! The filter controller: combines the enabled severity levels with
//! the search results to produce the visible subset of entries, in
//! order, and exports that subset as text.

use vstd::prelude::*;

use crate::parser::{LogEntry, LogLevel};
use vstd::string::StringExecFns;

verus! {

/// The set of enabled severity levels, one flag per level.
#[derive(Debug, Clone, Copy, PartialEq, Eq, Structural)]
pub struct LevelFilter {
    pub info: bool,
    pub warn: bool,
    pub error: bool,
    pub debug: bool,
    pub trace: bool,
    pub unknown: bool,
}

impl LevelFilter {
    pub open spec fn spec_contains(self, level: LogLevel) -> bool {
        match level {
            LogLevel::Info => self.info,
            LogLevel::Warn => self.warn,
            LogLevel::Error => self.error,
            LogLevel::Debug => self.debug,
            LogLevel::Trace => self.trace,
            LogLevel::Unknown => self.unknown,
        }
    }

    /// Every level enabled: the default view.
    pub fn all() -> (r: Self)
        ensures
            forall|l: LogLevel| r.spec_contains(l),
    {
        LevelFilter { info: true, warn: true, error: true, debug: true, trace: true, unknown: true }
    }

    /// No level enabled.
    pub fn none() -> (r: Self)
        ensures
            forall|l: LogLevel| !r.spec_contains(l),
    {
        LevelFilter {
            info: false,
            warn: false,
            error: false,
            debug: false,
            trace: false,
            unknown: false,
        }
    }

    pub fn contains(&self, level: LogLevel) -> (r: bool)
        ensures
            r == self.spec_contains(level),
    {
        match level {
            LogLevel::Info => self.info,
            LogLevel::Warn => self.warn,
            LogLevel::Error => self.error,
            LogLevel::Debug => self.debug,
            LogLevel::Trace => self.trace,
            LogLevel::Unknown => self.unknown,
        }
    }

    /// Enable or disable one level, leaving the others as they were.
    pub fn set(&mut self, level: LogLevel, enabled: bool)
        ensures
            final(self).spec_contains(level) == enabled,
            forall|l: LogLevel|
                l != level ==> final(self).spec_contains(l) == old(self).spec_contains(l),
    {
        match level {
            LogLevel::Info => self.info = enabled,
            LogLevel::Warn => self.warn = enabled,
            LogLevel::Error => self.error = enabled,
            LogLevel::Debug => self.debug = enabled,
            LogLevel::Trace => self.trace = enabled,
            LogLevel::Unknown => self.unknown = enabled,
        }
    }
}

/// Whether one entry passes the filter: its level must be enabled,
/// and, when only matches are shown and a query is live, its index
/// must be in the match set.
pub open spec fn entry_visible(
    e: LogEntry,
    idx: usize,
    enabled: LevelFilter,
    match_set: Seq<usize>,
    show_only_matches: bool,
    query_nonempty: bool,
) -> bool {
    enabled.spec_contains(e@.level) && (!show_only_matches || !query_nonempty
        || match_set.contains(idx))
}

/// The indices (from `i` on) of the entries that pass the filter, in
/// increasing order.
pub open spec fn visible_from(
    es: Seq<LogEntry>,
    i: int,
    enabled: LevelFilter,
    match_set: Seq<usize>,
    show_only_matches: bool,
    query_nonempty: bool,
) -> Seq<usize>
    decreases es.len() - i,
{
    if i < 0 || i >= es.len() {
        Seq::empty()
    } else if entry_visible(es[i], i as usize, enabled, match_set, show_only_matches,
    query_nonempty) {
        seq![i as usize] + visible_from(es, i + 1, enabled, match_set, show_only_matches,
        query_nonempty)
    } else {
        visible_from(es, i + 1, enabled, match_set, show_only_matches, query_nonempty)
    }
}

fn contains_index(v: &Vec<usize>, x: usize) -> (r: bool)
    ensures
        r == v@.contains(x),
{
    let n = v.len();
    let mut k: usize = 0;
    while k < n
        invariant
            0 <= k <= n,
            n == v@.len(),
            forall|t: int| 0 <= t < k ==> v@[t] != x,
        decreases n - k,
    {
        if v[k] == x {
            return true;
        }
        k = k + 1;
    }
    false
}

/// The visible subset: an entry's index is included iff its level is
/// enabled and, when only matches are shown and a query is live, the
/// index is in the match set. Order is preserved.
pub fn compute_visible(
    entries: &Vec<LogEntry>,
    enabled: &LevelFilter,
    match_set: &Vec<usize>,
    show_only_matches: bool,
    query_nonempty: bool,
) -> (r: Vec<usize>)
    ensures
        r@ == visible_from(
            entries@,
            0,
            *enabled,
            match_set@,
            show_only_matches,
            query_nonempty,
        ),
{
    let n = entries.len();
    let mut r: Vec<usize> = Vec::new();
    let mut i: usize = 0;
    while i < n
        invariant
            0 <= i <= n,
            n == entries@.len(),
            r@ + visible_from(entries@, i as int, *enabled, match_set@, show_only_matches,
            query_nonempty) =~= visible_from(entries@, 0, *enabled, match_set@,
            show_only_matches, query_nonempty),
        decreases n - i,
    {
        let level_ok = enabled.contains(entries[i].level);
        let match_ok = !show_only_matches || !query_nonempty || contains_index(match_set, i);
        if level_ok && match_ok {
            r.push(i);
        }
        i = i + 1;
    }
    r
}

/// Law: the filter preserves order. The visible indices from `i` on
/// are strictly increasing and at least `i`.
pub proof fn lemma_visible_ordered(
    es: Seq<LogEntry>,
    i: int,
    enabled: LevelFilter,
    match_set: Seq<usize>,
    show_only_matches: bool,
    query_nonempty: bool,
)
    requires
        0 <= i,
        es.len() <= usize::MAX,
    ensures
        forall|t: int|
            0 <= t < visible_from(es, i, enabled, match_set, show_only_matches,
            query_nonempty).len() ==> i <= (#[trigger] visible_from(
                es,
                i,
                enabled,
                match_set,
                show_only_matches,
                query_nonempty,
            )[t]),
        forall|t1: int, t2: int|
            0 <= t1 < t2 < visible_from(es, i, enabled, match_set, show_only_matches,
            query_nonempty).len() ==> (#[trigger] visible_from(
                es,
                i,
                enabled,
                match_set,
                show_only_matches,
                query_nonempty,
            )[t1]) < (#[trigger] visible_from(
                es,
                i,
                enabled,
                match_set,
                show_only_matches,
                query_nonempty,
            )[t2]),
    decreases es.len() - i,
{
    if i < es.len() {
        lemma_visible_ordered(es, i + 1, enabled, match_set, show_only_matches, query_nonempty);
        let vs = visible_from(es, i, enabled, match_set, show_only_matches, query_nonempty);
        let rest = visible_from(es, i + 1, enabled, match_set, show_only_matches, query_nonempty);
        if entry_visible(es[i], i as usize, enabled, match_set, show_only_matches,
        query_nonempty) {
            assert(vs =~= seq![i as usize] + rest);
            assert(forall|t: int| 1 <= t < vs.len() ==> vs[t] == rest[t - 1]);
        } else {
            assert(vs =~= rest);
        }
    }
}

/// Every index the filter selects points at an entry.
pub proof fn lemma_visible_in_range(
    es: Seq<LogEntry>,
    i: int,
    enabled: LevelFilter,
    match_set: Seq<usize>,
    show_only_matches: bool,
    query_nonempty: bool,
)
    requires
        0 <= i,
        es.len() <= usize::MAX,
    ensures
        forall|t: int|
            0 <= t < visible_from(es, i, enabled, match_set, show_only_matches,
            query_nonempty).len() ==> (#[trigger] visible_from(
                es,
                i,
                enabled,
                match_set,
                show_only_matches,
                query_nonempty,
            )[t]) < es.len(),
    decreases es.len() - i,
{
    let vs = visible_from(es, i, enabled, match_set, show_only_matches, query_nonempty);
    if i < es.len() {
        lemma_visible_in_range(es, i + 1, enabled, match_set, show_only_matches, query_nonempty);
        let tail = visible_from(es, i + 1, enabled, match_set, show_only_matches, query_nonempty);
        if entry_visible(es[i], i as usize, enabled, match_set, show_only_matches,
        query_nonempty) {
            assert(vs =~= seq![i as usize] + tail);
            assert forall|t: int| 0 <= t < vs.len() implies (vs[t]) < es.len() by {
                if t > 0 {
                    assert(vs[t] == tail[t - 1]);
                }
            }
        } else {
            assert(vs =~= tail);
        }
    }
}

proof fn lemma_all_visible_from(
    es: Seq<LogEntry>,
    i: int,
    enabled: LevelFilter,
    match_set: Seq<usize>,
    qne: bool,
)
    requires
        0 <= i <= es.len() <= usize::MAX,
        forall|l: LogLevel| enabled.spec_contains(l),
    ensures
        visible_from(es, i, enabled, match_set, false, qne) =~= Seq::new(
            (es.len() - i) as nat,
            |t: int| (i + t) as usize,
        ),
    decreases es.len() - i,
{
    if i < es.len() {
        lemma_all_visible_from(es, i + 1, enabled, match_set, qne);
    }
}

/// Law: the neutral filter hides nothing. With every level enabled and
/// match-only display off, the visible sequence is exactly all indices
/// in order, whatever the match set and query state.
pub proof fn lemma_filter_neutral(
    es: Seq<LogEntry>,
    enabled: LevelFilter,
    match_set: Seq<usize>,
    query_nonempty: bool,
)
    requires
        es.len() <= usize::MAX,
        forall|l: LogLevel| enabled.spec_contains(l),
    ensures
        visible_from(es, 0, enabled, match_set, false, query_nonempty) == Seq::new(
            es.len(),
            |t: int| t as usize,
        ),
    decreases es.len(),
{
    lemma_all_visible_from(es, 0, enabled, match_set, query_nonempty);
    assert(visible_from(es, 0, enabled, match_set, false, query_nonempty) =~= Seq::new(
        es.len(),
        |t: int| t as usize,
    ));
}

/// The raw texts of the selected entries, joined with newlines.
pub open spec fn join_visible(es: Seq<LogEntry>, ixs: Seq<usize>) -> Seq<char>
    decreases ixs.len(),
{
    if ixs.len() == 0 {
        Seq::empty()
    } else if ixs.len() == 1 {
        es[ixs[0] as int]@.raw_line
    } else {
        es[ixs[0] as int]@.raw_line + seq!['\n'] + join_visible(es, ixs.drop_first())
    }
}

proof fn lemma_join_visible_snoc(es: Seq<LogEntry>, ixs: Seq<usize>, x: usize)
    requires
        ixs.len() >= 1,
    ensures
        join_visible(es, ixs.push(x)) == join_visible(es, ixs) + seq!['\n'] + es[x as int]@.raw_line,
    decreases ixs.len(),
{
    let ext = ixs.push(x);
    if ixs.len() == 1 {
        assert(ext.drop_first() =~= seq![x]);
        assert(join_visible(es, ext.drop_first()) == es[x as int]@.raw_line);
        assert(join_visible(es, ext) == es[ixs[0] as int]@.raw_line + seq!['\n'] + es[
            x as int]@.raw_line);
    } else {
        assert(ext.drop_first() =~= ixs.drop_first().push(x));
        lemma_join_visible_snoc(es, ixs.drop_first(), x);
        assert(join_visible(es, ext) == es[ixs[0] as int]@.raw_line + seq!['\n'] + join_visible(
            es,
            ext.drop_first(),
        ));
    }
}

/// The raw texts of the currently visible entries, in visible order,
/// joined with newline separators.
pub fn export_visible(entries: &Vec<LogEntry>, visible: &Vec<usize>) -> (r: String)
    requires
        forall|t: int| 0 <= t < visible@.len() ==> (#[trigger] visible@[t]) < entries@.len(),
    ensures
        r@ == join_visible(entries@, visible@),
{
    let mut out = String::new();
    let n = visible.len();
    let mut k: usize = 0;
    while k < n
        invariant
            0 <= k <= n,
            n == visible@.len(),
            forall|t: int| 0 <= t < visible@.len() ==> (#[trigger] visible@[t]) < entries@.len(),
            out@ == join_visible(entries@, visible@.take(k as int)),
        decreases n - k,
    {
        let ghost out_prev = out@;
        proof {
            reveal_strlit("\n");
            assert("\n"@ =~= seq!['\n']);
            assert(visible@.take(k + 1) =~= visible@.take(k as int).push(visible@[k as int]));
        }
        if k > 0 {
            out.append("\n");
        }
        out.append(entries[visible[k]].raw_line.as_str());
        proof {
            if k == 0 {
                assert(visible@.take(1).len() == 1);
                assert(out@ =~= join_visible(entries@, visible@.take(1)));
            } else {
                lemma_join_visible_snoc(entries@, visible@.take(k as int), visible@[k as int]);
                assert(out@ =~= join_visible(entries@, visible@.take(k + 1)));
            }
        }
        k = k + 1;
    }
    proof {
        assert(visible@.take(n as int) =~= visible@);
    }
    out
}

} // verus!
