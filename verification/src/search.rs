//! The search pattern shared by all buffers, and the calls into the regex
//! engine that compile it and run it over a byte string.
//!
//! The engine is not verified here. What it returns is a function of the
//! pattern, its two flags and the text searched, and the contracts below give
//! each such result a name; the buffer code proves where a match lies in the
//! buffer from those names. How a plain text is escaped is stated in full,
//! and which of the engine's matches a backward search takes is decided in
//! verified code.

use vstd::prelude::*;
use regex::bytes::RegexBuilder;

verus! {

/// The text that `String::from_utf8_lossy` makes of a byte string.
pub uninterp spec fn lossy_text(bytes: Seq<u8>) -> Seq<char>;

/// The characters that mean more than themselves in a pattern.
pub open spec fn is_meta(c: char) -> bool {
    c == '\\' || c == '.' || c == '+' || c == '*' || c == '?' || c == '(' || c == ')' || c == '|'
        || c == '[' || c == ']' || c == '{' || c == '}' || c == '^' || c == '$' || c == '#' || c
        == '&' || c == '-' || c == '~'
}

/// The pattern that matches a text literally: its characters in their
/// order, each behind a backslash where it is a meta character.
pub open spec fn escaped_text(text: Seq<char>) -> Seq<char>
    decreases text.len(),
{
    if text.len() == 0 {
        Seq::empty()
    } else if is_meta(text.last()) {
        escaped_text(text.drop_last()).push('\\').push(text.last())
    } else {
        escaped_text(text.drop_last()).push(text.last())
    }
}

/// Whether the engine accepts `source` as a pattern under the two flags.
pub uninterp spec fn pattern_compiles(source: Seq<char>, fold_case: bool, multi_line: bool) -> bool;

/// The leftmost match of the pattern in `hay`, as start and end offsets.
pub uninterp spec fn first_match_in(
    source: Seq<char>,
    fold_case: bool,
    multi_line: bool,
    hay: Seq<u8>,
) -> Option<(usize, usize)>;

/// The successive non-overlapping matches of the pattern in `hay`, from
/// left to right, each as start and end offsets; none where the engine
/// refuses the pattern.
pub uninterp spec fn matches_in(
    source: Seq<char>,
    fold_case: bool,
    multi_line: bool,
    hay: Seq<u8>,
) -> Seq<(usize, usize)>;

/// A search pattern: its source text and the flags it is compiled with.
#[derive(Debug)]
pub struct SearchPattern {
    source: String,
    fold_case: bool,
    multi_line: bool,
}

/// What a search pattern is.
pub struct PatternView {
    pub source: Seq<char>,
    pub fold_case: bool,
    pub multi_line: bool,
}

impl View for SearchPattern {
    type V = PatternView;

    closed spec fn view(&self) -> PatternView {
        PatternView {
            source: self.source@,
            fold_case: self.fold_case,
            multi_line: self.multi_line,
        }
    }
}

/// Calls `String::from_utf8_lossy`: the bytes as text, invalid UTF-8
/// replaced as std documents. The contract only names the result.
#[verifier::external_body]
fn text_of_bytes(bytes: &[u8]) -> (r: String)
    ensures
        r@ == lossy_text(bytes@),
{
    String::from_utf8_lossy(bytes).into_owned()
}

/// Calls `regex::escape`, which copies the text and puts a backslash
/// before each meta character. The contract states that result.
#[verifier::external_body]
fn escape_text(text: &str) -> (r: String)
    ensures
        r@ == escaped_text(text@),
{
    regex::escape(text)
}

/// Builds the pattern with `regex::bytes::RegexBuilder` and says whether the
/// engine accepted it. The contract only names the answer.
#[verifier::external_body]
fn compiles(source: &str, fold_case: bool, multi_line: bool) -> (r: bool)
    ensures
        r == pattern_compiles(source@, fold_case, multi_line),
{
    RegexBuilder::new(source).case_insensitive(fold_case).multi_line(multi_line).build().is_ok()
}

/// Builds the pattern and calls `Regex::find` on `hay`. The contract names
/// the result and states what the engine documents of every match: its
/// start is not behind its end, and its end lies within the text.
#[verifier::external_body]
fn find_first(source: &str, fold_case: bool, multi_line: bool, hay: &[u8]) -> (r: Option<
    (usize, usize),
>)
    ensures
        r == first_match_in(source@, fold_case, multi_line, hay@),
        r matches Some((s, e)) ==> s <= e <= hay@.len(),
{
    let re = RegexBuilder::new(source).case_insensitive(fold_case).multi_line(multi_line).build();
    re.ok().and_then(|re| re.find(hay).map(|m| (m.start(), m.end())))
}

/// Builds the pattern and collects what `Regex::find_iter` yields on
/// `hay`, in its order; nothing where the pattern is refused. The contract
/// names the result and states the same bounds of every match.
#[verifier::external_body]
fn find_all(source: &str, fold_case: bool, multi_line: bool, hay: &[u8]) -> (r: Vec<(usize, usize)>)
    ensures
        r@ == matches_in(source@, fold_case, multi_line, hay@),
        forall|i: int| 0 <= i < r@.len() ==> (#[trigger] r@[i]).0 <= r@[i].1 <= hay@.len(),
{
    let re = RegexBuilder::new(source).case_insensitive(fold_case).multi_line(multi_line).build();
    match re {
        Ok(re) => re.find_iter(hay).map(|m| (m.start(), m.end())).collect(),
        Err(_) => Vec::new(),
    }
}

/// The last of a sequence of matches, if there is one.
pub open spec fn last_span(ms: Seq<(usize, usize)>) -> Option<(usize, usize)> {
    if ms.len() == 0 {
        None
    } else {
        Some(ms.last())
    }
}

/// The last of the matches `ms`, if there is one.
pub fn last_of(ms: &Vec<(usize, usize)>) -> (r: Option<(usize, usize)>)
    ensures
        r == last_span(ms@),
{
    if ms.len() == 0 {
        None
    } else {
        Some(ms[ms.len() - 1])
    }
}

/// The pattern a plain search string stands for: its text, escaped, with no
/// line anchoring.
pub open spec fn literal_pattern(s: Seq<u8>, fold_case: bool) -> PatternView {
    PatternView { source: escaped_text(lossy_text(s)), fold_case, multi_line: false }
}

/// The pattern a regular expression stands for: its text as it is, with `^`
/// and `$` anchoring at line breaks.
pub open spec fn regex_pattern(exp: Seq<u8>, fold_case: bool) -> PatternView {
    PatternView { source: lossy_text(exp), fold_case, multi_line: true }
}

/// Whether the engine accepts a pattern.
pub open spec fn is_valid(p: PatternView) -> bool {
    pattern_compiles(p.source, p.fold_case, p.multi_line)
}

impl SearchPattern {
    /// The pattern that matches `s` literally; `None` if the engine refuses it.
    pub fn literal(s: &[u8], fold_case: bool) -> (r: Option<SearchPattern>)
        ensures
            r.is_some() == is_valid(literal_pattern(s@, fold_case)),
            r matches Some(p) ==> p@ == literal_pattern(s@, fold_case),
    {
        let text = text_of_bytes(s);
        let source = escape_text(text.as_str());
        if compiles(source.as_str(), fold_case, false) {
            Some(SearchPattern { source, fold_case, multi_line: false })
        } else {
            None
        }
    }

    /// The pattern for the regular expression `exp`; `None` if the engine refuses it.
    pub fn regex(exp: &[u8], fold_case: bool) -> (r: Option<SearchPattern>)
        ensures
            r.is_some() == is_valid(regex_pattern(exp@, fold_case)),
            r matches Some(p) ==> p@ == regex_pattern(exp@, fold_case),
    {
        let source = text_of_bytes(exp);
        if compiles(source.as_str(), fold_case, true) {
            Some(SearchPattern { source, fold_case, multi_line: true })
        } else {
            None
        }
    }

    /// The leftmost match in `hay`.
    pub fn first_in(&self, hay: &[u8]) -> (r: Option<(usize, usize)>)
        ensures
            r == first_match(self@, hay@),
            r matches Some((s, e)) ==> s <= e <= hay@.len(),
    {
        find_first(self.source.as_str(), self.fold_case, self.multi_line, hay)
    }

    /// The successive non-overlapping matches in `hay`, from left to right.
    pub fn all_in(&self, hay: &[u8]) -> (r: Vec<(usize, usize)>)
        ensures
            r@ == all_matches(self@, hay@),
            forall|i: int| 0 <= i < r@.len() ==> (#[trigger] r@[i]).0 <= r@[i].1 <= hay@.len(),
    {
        find_all(self.source.as_str(), self.fold_case, self.multi_line, hay)
    }

    /// The last of the successive non-overlapping matches in `hay`.
    pub fn last_in(&self, hay: &[u8]) -> (r: Option<(usize, usize)>)
        ensures
            r == last_match(self@, hay@),
            r matches Some((s, e)) ==> s <= e <= hay@.len(),
    {
        let ms = self.all_in(hay);
        last_of(&ms)
    }
}

/// The leftmost match of a pattern in `hay`.
pub open spec fn first_match(p: PatternView, hay: Seq<u8>) -> Option<(usize, usize)> {
    first_match_in(p.source, p.fold_case, p.multi_line, hay)
}

/// The successive non-overlapping matches of a pattern in `hay`, from left to right.
pub open spec fn all_matches(p: PatternView, hay: Seq<u8>) -> Seq<(usize, usize)> {
    matches_in(p.source, p.fold_case, p.multi_line, hay)
}

/// The last of the successive non-overlapping matches of a pattern in `hay`.
pub open spec fn last_match(p: PatternView, hay: Seq<u8>) -> Option<(usize, usize)> {
    last_span(all_matches(p, hay))
}

} // verus!
