//! Byte-oriented regular expressions through the `regex` crate.
//!
//! The engine scans wikitext as raw octets, so the compiled expression is a
//! `regex::bytes::Regex`.  What a pattern matches is the regex language's
//! business; the library names the result — [`regex_match_spans`] — and the
//! trusted wrappers promise only what the crate documents: the spans come in
//! left-to-right order, are non-overlapping, and lie within the text.

use vstd::prelude::*;

use crate::errors::Error;
use crate::format::MatchSpan;
use crate::format::valid_spans;

verus! {

#[verifier::external_type_specification]
#[verifier::external_body]
pub struct ExRegex(regex::bytes::Regex);

/// The match spans that the pattern `pattern` yields on `text`: the byte
/// intervals of the successive non-overlapping matches, left to right.  They
/// depend on the pattern and the text alone.
pub uninterp spec fn regex_match_spans(pattern: Seq<char>, text: Seq<u8>) -> Seq<(int, int)>;

/// Whether `pattern` is a valid regular expression: whether compiling it
/// succeeds.  That is decided by the pattern alone.
pub uninterp spec fn regex_compiles(pattern: Seq<char>) -> bool;

/// The spans `ms` as pairs of mathematical integers.
pub open spec fn span_pairs(ms: Seq<MatchSpan>) -> Seq<(int, int)> {
    ms.map_values(|m: MatchSpan| (m.start as int, m.end as int))
}

/// Offset pairs as match spans.
pub open spec fn spans_of_pairs(ps: Seq<(int, int)>) -> Seq<MatchSpan> {
    ps.map_values(|p: (int, int)| MatchSpan { start: p.0 as usize, end: p.1 as usize })
}

/// Spans survive the round trip through offset pairs.
pub proof fn lemma_spans_roundtrip(ms: Seq<MatchSpan>)
    ensures
        spans_of_pairs(span_pairs(ms)) =~= ms,
{
    assert forall|i: int| 0 <= i < ms.len() implies
        spans_of_pairs(span_pairs(ms))[i] == ms[i] by {
        assert(span_pairs(ms)[i] == (ms[i].start as int, ms[i].end as int));
    }
}

/// A compiled byte-oriented regular expression, remembering the pattern it
/// was compiled from.
pub struct CompiledRegex {
    re: regex::bytes::Regex,
    pattern: Ghost<Seq<char>>,
}

/// Relies on regex::bytes::Regex::new: compiles the pattern — succeeding
/// exactly on the valid patterns, [`regex_compiles`] — or reports the regex
/// error's message when the pattern is invalid.
#[verifier::external_body]
fn regex_new(pattern: &str) -> (r: Result<regex::bytes::Regex, String>)
    ensures
        r is Ok <==> regex_compiles(pattern@),
{
    match regex::bytes::Regex::new(pattern) {
        Ok(re) => Ok(re),
        Err(e) => Err(e.to_string()),
    }
}

impl CompiledRegex {
    /// The pattern this expression was compiled from.
    pub closed spec fn spec_pattern(&self) -> Seq<char> {
        self.pattern@
    }

    /// Compiles `pattern`: succeeds exactly when the pattern is a valid
    /// regular expression, and an invalid one comes back as [`Error::Regex`].
    pub fn compile(pattern: &str) -> (r: Result<CompiledRegex, Error>)
        ensures
            r is Ok <==> regex_compiles(pattern@),
            r is Ok ==> r->Ok_0.spec_pattern() == pattern@,
            r is Err ==> r->Err_0 is Regex,
    {
        match regex_new(pattern) {
            Ok(re) => Ok(CompiledRegex { re, pattern: Ghost(pattern@) }),
            Err(msg) => Err(Error::Regex(msg)),
        }
    }

    /// Relies on regex::bytes::Regex::find_iter: the successive
    /// non-overlapping matches of the pattern in the text, in left-to-right
    /// order, each with `start() <= end()` and offsets within the text.
    #[verifier::external_body]
    pub(crate) fn find_matches(&self, text: &Vec<u8>) -> (r: Vec<MatchSpan>)
        ensures
            span_pairs(r@) == regex_match_spans(self.spec_pattern(), text@),
            valid_spans(r@, text@.len() as int),
    {
        self.re
            .find_iter(text.as_slice())
            .map(|m| MatchSpan { start: m.start(), end: m.end() })
            .collect()
    }

    /// Relies on regex::bytes::Regex::is_match: true exactly when the pattern
    /// matches somewhere in the text, that is, when `find_iter` would yield
    /// at least one match.
    #[verifier::external_body]
    pub(crate) fn is_match(&self, text: &Vec<u8>) -> (r: bool)
        ensures
            r == (regex_match_spans(self.spec_pattern(), text@).len() > 0),
    {
        self.re.is_match(text.as_slice())
    }
}

} // verus!
