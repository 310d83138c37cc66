//! Words, found by a regular expression.
//!
//! A word is a match of [`WORD_PATTERN`] in a line. The matching is the
//! `regex` crate's work: this module gives the calls a contract, which is
//! believed and not proved, and keeps the compiled pattern in a
//! [`WordMatcher`].

use regex::Regex;
use vstd::prelude::*;
use vstd::string::StringSliceAdditionalSpecFns;
use vstd::utf8::is_char_boundary;

verus! {

/// The pattern of a word: one or more word characters.
pub const WORD_PATTERN: &'static str = "\\w+";

/// `regex::Regex`, a compiled regular expression. Nothing of what it holds
/// is visible to proofs but what the two names below say of it.
#[verifier::external_type_specification]
#[verifier::external_body]
pub struct ExRegex(regex::Regex);

/// The pattern that `Regex::new` compiled `re` from: what `Regex::as_str`
/// returns for it.
pub uninterp spec fn regex_pattern(re: Regex) -> Seq<char>;

/// The matches that `Regex::find_iter` yields when the regular expression
/// that `Regex::new` compiles from `pattern` searches `haystack`, in the order
/// in which it yields them. Each match is the pair of `Match::start` and
/// `Match::end`: byte offsets into the UTF-8 encoding of the haystack.
pub uninterp spec fn regex_find_spans(pattern: Seq<char>, haystack: Seq<char>) -> Seq<
    (usize, usize),
>;

/// Whether `spans` are pieces of the text encoded by `bytes` that follow one
/// another without overlap: each starts and ends on a character boundary,
/// does not end before it starts, and does not start before the one before it
/// has ended.
pub open spec fn spans_lie_in(spans: Seq<(usize, usize)>, bytes: Seq<u8>) -> bool {
    &&& forall|i: int|
        0 <= i < spans.len() ==> {
            &&& (#[trigger] spans[i]).0 <= spans[i].1 <= bytes.len()
            &&& is_char_boundary(bytes, spans[i].0 as int)
            &&& is_char_boundary(bytes, spans[i].1 as int)
        }
    &&& forall|i: int, j: int|
        0 <= i < j < spans.len() ==> (#[trigger] spans[i]).1 <= (#[trigger] spans[j]).0
}

/// Spans that lie in a text still do so without the last of them.
pub proof fn lemma_earlier_spans_lie_in(spans: Seq<(usize, usize)>, bytes: Seq<u8>)
    requires
        spans_lie_in(spans, bytes),
        spans.len() > 0,
    ensures
        spans_lie_in(spans.drop_last(), bytes),
{
    let earlier = spans.drop_last();
    assert forall|i: int| 0 <= i < earlier.len() implies earlier[i] == spans[i] by {}
}

/// The word matches in `line`.
pub open spec fn word_spans(line: Seq<char>) -> Seq<(usize, usize)> {
    regex_find_spans(WORD_PATTERN@, line)
}

/// Compiles `pattern` with `Regex::new`; `None` stands for its error.
///
/// `Regex::new` keeps the pattern in the regular expression that it returns.
/// It accepts the word pattern: the pattern is valid, Unicode word characters
/// are part of the crate's default features, and the crate's own
/// documentation compiles this very pattern.
#[verifier::external_body]
fn compile(pattern: &str) -> (compiled: Option<Regex>)
    ensures
        compiled matches Some(re) ==> regex_pattern(re) == pattern@,
        pattern@ == WORD_PATTERN@ ==> compiled is Some,
{
    Regex::new(pattern).ok()
}

/// Runs `Regex::find_iter` over `haystack` and hands out the offsets of each
/// `Match` that it yields. `re` is a regular expression that [`compile`]
/// returned: this library makes no other.
///
/// The iterator yields successive matches that do not overlap. Of a match the
/// crate guarantees that its start is not behind its end, and that both fall
/// on UTF-8 character boundaries of the haystack, so that the haystack can be
/// sliced there.
#[verifier::external_body]
fn find_spans(re: &Regex, haystack: &str) -> (spans: Vec<(usize, usize)>)
    ensures
        spans@ == regex_find_spans(regex_pattern(*re), haystack@),
        spans_lie_in(spans@, haystack.spec_bytes()),
{
    re.find_iter(haystack).map(|m| (m.start(), m.end())).collect()
}

/// A compiled pattern; [`WordMatcher::new`] compiles the word pattern.
///
/// Compiling takes much longer than matching a line, so one matcher serves
/// all the lines of a text.
pub struct WordMatcher {
    re: Regex,
}

impl WordMatcher {
    /// The pattern that the matcher was compiled from.
    pub closed spec fn pattern(&self) -> Seq<char> {
        regex_pattern(self.re)
    }

    /// Compiles the word pattern: the matcher that comes back holds it, and
    /// so finds the words of a line.
    pub fn new() -> (matcher: Self)
        ensures
            matcher.pattern() == WORD_PATTERN@,
    {
        match compile(WORD_PATTERN) {
            Some(re) => WordMatcher { re },
            None => vstd::pervasive::unreached(),
        }
    }

    /// Where the matches of the matcher's pattern stand in `line`: the start
    /// and the end of each, as byte offsets into the line. For a matcher that
    /// [`new`](Self::new) made they are the words of the line.
    pub fn spans(&self, line: &str) -> (spans: Vec<(usize, usize)>)
        ensures
            spans@ == regex_find_spans(self.pattern(), line@),
            spans_lie_in(spans@, line.spec_bytes()),
    {
        find_spans(&self.re, line)
    }
}

} // verus!
