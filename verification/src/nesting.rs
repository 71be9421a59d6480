//! What the search for an element finds, said without the search: the first
//! start tag that the matcher accepts, and the end tag that closes it; and
//! what removal makes of that.

use crate::tokens::{balance, tag_balance, well_ended, well_nested, xml_tokens, TokenView};
use crate::xeditor::{
    lemma_removal_is_one_cut, lemma_settled_scan_stays, line_of_row, offset_of_line,
    removal_reports, scan, MatcherView, Scan, XmlFailure,
};
use vstd::prelude::*;

verus! {

/// Of the elements opened after the token at `open`, how many are open after
/// the token at `at`; negative once the element opened at `open` is closed.
pub open spec fn open_after(tokens: Seq<TokenView>, open: int, at: int) -> int {
    balance(tokens.subrange(open + 1, at + 1))
}

/// No token before `upto` ends the document.
pub open spec fn goes_on(tokens: Seq<TokenView>, upto: int) -> bool {
    forall|k: int| 0 <= k < upto ==> !(#[trigger] tokens[k]).kind.is_terminal()
}

/// The token at `open` is the first start tag that the matcher accepts.
pub open spec fn is_first_match(tokens: Seq<TokenView>, matcher: MatcherView, open: int) -> bool {
    &&& 0 <= open < tokens.len()
    &&& matcher.accepts_token(tokens[open])
    &&& forall|k: int| 0 <= k < open ==> !matcher.accepts_token(#[trigger] tokens[k])
}

/// The element opened at `open` is still open before the token at `upto`.
pub open spec fn stays_open(tokens: Seq<TokenView>, open: int, upto: int) -> bool {
    forall|k: int| open < k < upto ==> #[trigger] open_after(tokens, open, k) >= 0
}

/// The token at `close` is the end tag of the element that the token at
/// `open` opened: the first after which more elements have been closed than
/// opened. End tags of descendants, whatever their names, come before it.
pub open spec fn closes(tokens: Seq<TokenView>, open: int, close: int) -> bool {
    &&& 0 <= open < close < tokens.len()
    &&& stays_open(tokens, open, close)
    &&& open_after(tokens, open, close) == -1
}

/// The tokens from `open` to `close` are the first element that the matcher
/// accepts, from its start tag to its end tag, in a document that goes on
/// that far.
pub open spec fn spans(tokens: Seq<TokenView>, matcher: MatcherView, open: int, close: int) -> bool {
    &&& is_first_match(tokens, matcher, open)
    &&& closes(tokens, open, close)
    &&& goes_on(tokens, close)
}

proof fn lemma_open_after_next(tokens: Seq<TokenView>, open: int, at: int)
    requires
        0 <= open < at < tokens.len(),
    ensures
        open_after(tokens, open, at) == open_after(tokens, open, at - 1) + tag_balance(
            tokens[at].kind,
        ),
        open_after(tokens, open, open) == 0,
{
    assert(tokens.subrange(open + 1, at + 1).drop_last() =~= tokens.subrange(open + 1, at));
    assert(tokens.subrange(open + 1, open + 1) =~= Seq::<TokenView>::empty());
}

/// What each state of the search says of the tokens it has seen.
proof fn lemma_scan_trace(tokens: Seq<TokenView>, matcher: MatcherView, upto: int) -> (at: (
    int,
    int,
))
    requires
        0 <= upto <= tokens.len(),
    ensures
        match scan(tokens.take(upto), matcher) {
            Scan::Scanning { .. } => {
                &&& goes_on(tokens, upto)
                &&& forall|k: int| 0 <= k < upto ==> !matcher.accepts_token(#[trigger] tokens[k])
            },
            Scan::InsideMatch { start_line, start_depth, depth } => {
                &&& is_first_match(tokens, matcher, at.0)
                &&& at.0 < upto
                &&& goes_on(tokens, upto)
                &&& stays_open(tokens, at.0, upto)
                &&& start_line == line_of_row(tokens[at.0].row)
                &&& depth - start_depth == open_after(tokens, at.0, upto - 1)
            },
            Scan::Found { start_line, end_line } => {
                &&& spans(tokens, matcher, at.0, at.1)
                &&& at.1 < upto
                &&& start_line == line_of_row(tokens[at.0].row)
                &&& end_line == line_of_row(tokens[at.1].row)
            },
            _ => !goes_on(tokens, upto),
        },
    decreases upto,
{
    if upto == 0 {
        (0, 0)
    } else {
        let before = lemma_scan_trace(tokens, matcher, upto - 1);
        let last = upto - 1;
        let token = tokens[last];
        assert(tokens.take(upto).drop_last() =~= tokens.take(last));
        assert(tokens.take(upto).last() == token);
        match scan(tokens.take(last), matcher) {
            Scan::Scanning { .. } => {
                if matcher.accepts_token(token) {
                    assert(tokens.subrange(last + 1, last + 1) =~= Seq::<TokenView>::empty());
                    (last, 0)
                } else {
                    (0, 0)
                }
            },
            Scan::InsideMatch { .. } => {
                let open = before.0;
                lemma_open_after_next(tokens, open, last);
                if token.kind is EndElement && open_after(tokens, open, last - 1) == 0 {
                    (open, last)
                } else {
                    (open, 0)
                }
            },
            _ => before,
        }
    }
}

/// A search that ends in `Found` has found an element: there are a start tag
/// and an end tag that span the first element that the matcher accepts, and
/// the lines found are those of the two tags.
pub proof fn lemma_found_is_an_element(tokens: Seq<TokenView>, matcher: MatcherView) -> (at: (
    int,
    int,
))
    requires
        scan(tokens, matcher) is Found,
    ensures
        spans(tokens, matcher, at.0, at.1),
        scan(tokens, matcher) == (Scan::Found {
            start_line: line_of_row(tokens[at.0].row),
            end_line: line_of_row(tokens[at.1].row),
        }),
{
    assert(tokens.take(tokens.len() as int) =~= tokens);
    lemma_scan_trace(tokens, matcher, tokens.len() as int)
}

/// The element is found whatever it holds: where the tokens from `open` to
/// `close` span the first element that the matcher accepts, the search ends
/// in `Found`, with the lines of those two tags, however many elements of
/// whatever names are nested between them, and whatever follows.
pub proof fn lemma_element_is_found(
    tokens: Seq<TokenView>,
    matcher: MatcherView,
    open: int,
    close: int,
)
    requires
        spans(tokens, matcher, open, close),
    ensures
        scan(tokens, matcher) == (Scan::Found {
            start_line: line_of_row(tokens[open].row),
            end_line: line_of_row(tokens[close].row),
        }),
{
    let at = lemma_scan_trace(tokens, matcher, close + 1);
    let state = scan(tokens.take(close + 1), matcher);
    lemma_open_after_next(tokens, open, close);
    assert(tag_balance(tokens[close].kind) < 0 || open_after(tokens, open, close - 1) < 0);
    if open + 1 < close {
        assert(open_after(tokens, open, close - 1) >= 0);
    }
    assert(tokens[close].kind is EndElement);
    assert(!tokens[close].kind.is_terminal());
    assert(goes_on(tokens, close + 1));
    match state {
        Scan::Scanning { .. } => {
            assert(!matcher.accepts_token(tokens[open]));
        },
        Scan::InsideMatch { .. } => {
            assert(at.0 == open) by {
                if at.0 < open {
                    assert(!matcher.accepts_token(tokens[at.0]));
                }
                if open < at.0 {
                    assert(!matcher.accepts_token(tokens[open]));
                }
            }
            assert(open_after(tokens, open, close) >= 0);
        },
        Scan::Found { .. } => {
            assert(at.0 == open) by {
                if at.0 < open {
                    assert(!matcher.accepts_token(tokens[at.0]));
                }
                if open < at.0 {
                    assert(!matcher.accepts_token(tokens[open]));
                }
            }
            if at.1 < close {
                assert(open_after(tokens, open, at.1) >= 0);
            }
            if close < at.1 {
                assert(open_after(tokens, open, close) >= 0);
            }
            lemma_settled_scan_stays(tokens, close + 1, matcher);
        },
        _ => {},
    }
}

/// Removal cuts the matched element out, and that alone. Where the events of
/// a file from `open` to `close` span the first element that the matcher
/// accepts, `remove_element` returns the file without the lines from that of
/// the start tag to that of the end tag: what stands before the first of
/// those lines and what stands after the last of them is kept as it is,
/// whatever is nested in the element and whatever elements stand beside it.
pub proof fn lemma_matched_element_is_cut_out(
    content: Seq<u8>,
    matcher: MatcherView,
    open: int,
    close: int,
    outcome: Result<Option<Vec<u8>>, XmlFailure>,
)
    requires
        spans(xml_tokens(content), matcher, open, close),
        removal_reports(content, scan(xml_tokens(content), matcher), outcome),
    ensures
        ({
            let first = line_of_row(xml_tokens(content)[open].row) as int;
            let last = line_of_row(xml_tokens(content)[close].row) as int;
            let from = offset_of_line(content, first);
            let to = offset_of_line(content, last + 1);
            &&& outcome matches Ok(Some(rewritten))
            &&& rewritten@ == content.take(from) + content.skip(
                if to < from {
                    from
                } else {
                    to
                },
            )
        }),
{
    lemma_element_is_found(xml_tokens(content), matcher, open, close);
    lemma_removal_is_one_cut(
        content,
        line_of_row(xml_tokens(content)[open].row) as int,
        line_of_row(xml_tokens(content)[close].row) as int,
    );
}

proof fn lemma_balance_of_both(first: Seq<TokenView>, second: Seq<TokenView>)
    ensures
        balance(first + second) == balance(first) + balance(second),
    decreases second.len(),
{
    if second.len() == 0 {
        assert(first + second =~= first);
    } else {
        assert((first + second).drop_last() =~= first + second.drop_last());
        lemma_balance_of_both(first, second.drop_last());
    }
}

/// From `at` on, where the element opened at `open` is still open, an end
/// tag that closes it is to come.
proof fn lemma_close_is_to_come(tokens: Seq<TokenView>, open: int, at: int) -> (close: int)
    requires
        0 <= open < at <= tokens.len(),
        stays_open(tokens, open, at),
        open_after(tokens, open, at - 1) >= 0,
        open_after(tokens, open, tokens.len() - 1) < 0,
    ensures
        closes(tokens, open, close),
    decreases tokens.len() - at,
{
    if at == tokens.len() {
        0
    } else {
        lemma_open_after_next(tokens, open, at);
        if open_after(tokens, open, at) < 0 {
            at
        } else {
            lemma_close_is_to_come(tokens, open, at + 1)
        }
    }
}

/// What is opened is closed: in a document that parses to its end, the first
/// element that the matcher accepts has its end tag, and the search finds the
/// lines from its start tag to that end tag.
pub proof fn lemma_accepted_element_is_found(
    tokens: Seq<TokenView>,
    matcher: MatcherView,
    open: int,
) -> (close: int)
    requires
        well_ended(tokens),
        well_nested(tokens),
        tokens.last().kind is EndDocument,
        is_first_match(tokens, matcher, open),
    ensures
        spans(tokens, matcher, open, close),
        scan(tokens, matcher) == (Scan::Found {
            start_line: line_of_row(tokens[open].row),
            end_line: line_of_row(tokens[close].row),
        }),
{
    let n = tokens.len() as int;
    let head = tokens.take(open + 1);
    let tail = tokens.subrange(open + 1, n);
    assert(head + tail =~= tokens);
    lemma_balance_of_both(head, tail);
    assert(head.drop_last() =~= tokens.take(open));
    assert(balance(tokens.take(open)) >= 0);
    assert(balance(head) >= 1);
    assert(open < n - 1);
    lemma_open_after_next(tokens, open, open + 1);
    let close = lemma_close_is_to_come(tokens, open, open + 1);
    lemma_element_is_found(tokens, matcher, open, close);
    close
}

/// Removal finds what the file declares: from a file that parses to its end
/// and holds an element that the matcher accepts, `remove_element` cuts that
/// element out; it does not answer that there is no match.
pub proof fn lemma_accepted_element_is_removed(
    content: Seq<u8>,
    matcher: MatcherView,
    open: int,
    outcome: Result<Option<Vec<u8>>, XmlFailure>,
)
    requires
        well_ended(xml_tokens(content)),
        well_nested(xml_tokens(content)),
        xml_tokens(content).last().kind is EndDocument,
        is_first_match(xml_tokens(content), matcher, open),
        removal_reports(content, scan(xml_tokens(content), matcher), outcome),
    ensures
        outcome matches Ok(Some(_)),
{
    let close = lemma_accepted_element_is_found(xml_tokens(content), matcher, open);
}

} // verus!
