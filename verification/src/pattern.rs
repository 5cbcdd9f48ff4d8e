//! Trusted boundary to the `regex` crate, which evaluates user-supplied
//! search patterns. Whether a pattern compiles, and which spans a
//! compiled pattern matches in a text, are deterministic functions of
//! the pattern and text; they are given names here and everything else
//! is proved against those names.

use vstd::prelude::*;
use vstd::string::StringSliceAdditionalSpecFns;

verus! {

#[verifier::external_type_specification]
#[verifier::external_body]
pub struct ExRegex(regex::Regex);

/// Whether `regex::Regex::new` accepts a pattern.
pub uninterp spec fn regex_compiles(pat: Seq<char>) -> bool;

/// The (start, end) byte-offset spans that `regex::Regex::find_iter`
/// yields for a pattern over a text: the successive non-overlapping
/// matches, leftmost first.
pub uninterp spec fn regex_spans(pat: Seq<char>, text: Seq<char>) -> Seq<(usize, usize)>;

/// A compiled search pattern, together with the pattern text it was
/// compiled from. Values exist only through [`CompiledPattern::compile`],
/// so the compiled regex always belongs to the remembered pattern.
pub struct CompiledPattern {
    re: regex::Regex,
    pat: String,
}

impl CompiledPattern {
    /// The pattern text this value was compiled from.
    pub closed spec fn pattern(&self) -> Seq<char> {
        self.pat@
    }

    /// Relies on regex::Regex::new: it accepts or rejects a pattern
    /// deterministically in the pattern text (rejection covers both
    /// syntax errors and the default size limit).
    #[verifier::external_body]
    pub fn compile(pattern: &str) -> (r: Option<CompiledPattern>)
        ensures
            r is Some <==> regex_compiles(pattern@),
            r matches Some(cp) ==> cp.pattern() == pattern@,
    {
        match regex::Regex::new(pattern) {
            Ok(re) => Some(CompiledPattern { re, pat: pattern.to_owned() }),
            Err(_) => None,
        }
    }

    /// Relies on regex::Regex::find_iter and Match::start/end: the
    /// byte offsets of the successive non-overlapping matches, a
    /// function of the pattern and the text alone. Each match
    /// guarantees `start() <= end()`, both offsets lie within the
    /// haystack, and successive matches do not overlap.
    #[verifier::external_body]
    pub fn find_spans(&self, text: &str) -> (r: Vec<(usize, usize)>)
        ensures
            r@ == regex_spans(self.pattern(), text@),
            forall|k: int|
                0 <= k < r@.len() ==> (#[trigger] r@[k]).0 <= r@[k].1 <= text.spec_bytes().len(),
            forall|k: int| 0 <= k && k + 1 < r@.len() ==> (#[trigger] r@[k]).1 <= r@[k + 1].0,
    {
        self.re.find_iter(text).map(|m| (m.start(), m.end())).collect()
    }
}

} // verus!
