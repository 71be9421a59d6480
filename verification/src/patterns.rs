//! Regular expressions, as the `regex` crate and the `grep` crates match
//! them. What a pattern matches is not spelled out here: each result has a
//! name, and the callers' contracts speak of those names.

use grep_matcher::{Captures, Matcher};
use grep_regex::RegexMatcher;
use grep_searcher::sinks::UTF8;
use grep_searcher::Searcher;
use regex::Regex;
use vstd::prelude::*;

verus! {

/// `regex::Regex`: a compiled regular expression, carried as it comes.
#[verifier::external_type_specification]
#[verifier::external_body]
pub struct ExRegex(Regex);

/// `regex::Error`: why a pattern did not compile.
#[verifier::external_type_specification]
#[verifier::external_body]
pub struct ExRegexError(regex::Error);

/// `grep_regex::RegexMatcher`: a compiled matcher, carried as it comes.
#[verifier::external_type_specification]
#[verifier::external_body]
pub struct ExRegexMatcher(RegexMatcher);

/// `grep_regex::Error`: why a pattern did not compile.
#[verifier::external_type_specification]
#[verifier::external_body]
pub struct ExMatcherError(grep_regex::Error);

/// `std::io::Error`: why a search failed.
#[verifier::external_type_specification]
#[verifier::external_body]
pub struct ExIoError(std::io::Error);

/// Whether `Regex::new` accepts the pattern.
pub uninterp spec fn regex_compiles(pattern: Seq<char>) -> bool;

/// The pattern that a `Regex` was built from.
pub uninterp spec fn regex_pattern(regex: Regex) -> Seq<char>;

/// The text that group `group` captured in the leftmost match of `pattern`
/// in `text`; `None` where there is no match, no such group, or the group
/// took no part in the match.
pub uninterp spec fn first_capture(pattern: Seq<char>, text: Seq<char>, group: int) -> Option<
    Seq<char>,
>;

/// Whether `RegexMatcher::new` accepts the pattern.
pub uninterp spec fn matcher_compiles(pattern: Seq<char>) -> bool;

/// The pattern that a `RegexMatcher` was built from.
pub uninterp spec fn matcher_pattern(matcher: RegexMatcher) -> Seq<char>;

/// The lines of `content` in which a default `Searcher` finds a match of
/// `pattern`, in order and with their line ends, as the `UTF8` sink hands
/// them out; `None` where the search or the sink fails, as on a matching line
/// that is not UTF-8.
pub uninterp spec fn matching_lines_of(pattern: Seq<char>, content: Seq<u8>) -> Option<
    Seq<Seq<char>>,
>;

/// For each of the successive non-overlapping matches of `pattern` in
/// `line`, the text that group `group` captured, or `None` where the group
/// took no part in that match or what it captured is not a run of whole
/// characters of the line.
pub uninterp spec fn captures_of(pattern: Seq<char>, line: Seq<char>, group: int) -> Seq<
    Option<Seq<char>>,
>;

/// `Regex::new`: fails on a pattern that does not compile, else gives the
/// regular expression of that pattern.
#[verifier::external_body]
pub(crate) fn compile(pattern: &str) -> (compiled: Result<Regex, regex::Error>)
    ensures
        compiled is Ok <==> regex_compiles(pattern@),
        compiled matches Ok(regex) ==> regex_pattern(regex) == pattern@,
{
    Regex::new(pattern)
}

/// `Regex::captures`, then `Captures::get` and `Match::as_str`: the text of
/// one group of the leftmost match.
#[verifier::external_body]
pub(crate) fn capture(regex: &Regex, text: &str, group: usize) -> (captured: Option<String>)
    ensures
        captured matches Some(found) ==> first_capture(regex_pattern(*regex), text@, group as int)
            == Some(found@),
        captured is None ==> first_capture(regex_pattern(*regex), text@, group as int) is None,
{
    regex.captures(text).and_then(|captures| captures.get(group)).map(
        |found| found.as_str().to_string(),
    )
}

/// `RegexMatcher::new`: fails on a pattern that does not compile, else gives
/// the matcher of that pattern.
#[verifier::external_body]
pub(crate) fn new_matcher(pattern: &str) -> (built: Result<RegexMatcher, grep_regex::Error>)
    ensures
        built is Ok <==> matcher_compiles(pattern@),
        built matches Ok(matcher) ==> matcher_pattern(matcher) == pattern@,
{
    RegexMatcher::new(pattern)
}

/// Takes in a line that the search hands out, and asks for the next.
fn keep_line(lines: &mut Vec<String>, line: &str) -> (go_on: bool)
    ensures
        go_on,
        final(lines).deep_view() == old(lines).deep_view().push(line@),
{
    let ghost before = lines.deep_view();
    lines.push(line.to_owned());
    assert(lines.deep_view() =~= before.push(line@));
    true
}

/// Takes in what one match captured, and asks for the next match.
fn keep_text(texts: &mut Vec<Option<String>>, text: Option<String>) -> (go_on: bool)
    ensures
        go_on,
        final(texts).deep_view() == old(texts).deep_view().push(text.deep_view()),
{
    let ghost before = texts.deep_view();
    texts.push(text);
    assert(texts.deep_view() =~= before.push(text.deep_view()));
    true
}

/// `Searcher::search_slice` of a default `Searcher`, with a `UTF8` sink that
/// keeps each line it is handed.
#[verifier::external_body]
pub(crate) fn matching_lines(matcher: &RegexMatcher, content: &[u8]) -> (found: Result<
    Vec<String>,
    std::io::Error,
>)
    ensures
        found matches Ok(lines) ==> matching_lines_of(matcher_pattern(*matcher), content@) == Some(
            lines.deep_view(),
        ),
        found is Err ==> matching_lines_of(matcher_pattern(*matcher), content@) is None,
{
    let mut lines = Vec::new();
    let sink = UTF8(|_, line| Ok(keep_line(&mut lines, line)));
    Searcher::new().search_slice(matcher, content, sink)?;
    Ok(lines)
}

/// `Matcher::captures_iter` over one line, with `Captures::get` on each
/// match and `str::get` on the line for the span it gives: the text of one
/// group, match by match. A span that does not lie on character boundaries
/// gives `None`, as a group does that took no part.
#[verifier::external_body]
pub(crate) fn captures_in_line(matcher: &RegexMatcher, line: &str, group: usize) -> (texts: Vec<
    Option<String>,
>)
    ensures
        texts.deep_view() == captures_of(matcher_pattern(*matcher), line@, group as int),
{
    let mut texts = Vec::new();
    if let Ok(mut captures) = matcher.new_captures() {
        let _ = matcher.captures_iter(
            line.as_bytes(),
            &mut captures,
            |found| {
                let span = found.get(group).and_then(|span| line.get(span.start()..span.end()));
                keep_text(&mut texts, span.map(str::to_string))
            },
        );
    }
    texts
}

} // verus!
