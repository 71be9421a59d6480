//! Removal and the index agree on what a file declares: an identifier that
//! the record of a file does not list is not removed from it.

use crate::extract::{name_values, token_definitions, xml_facts, NAME_ATTRIBUTE};
use crate::tokens::{well_ended, xml_tokens, AttributeView, KindView, TokenView};
use crate::xeditor::{
    has_attribute, lemma_absent_element_is_no_match, removal_reports, scan, MatcherView,
    XmlFailure,
};
use crate::report::removes_string;
use vstd::prelude::*;

verus! {

proof fn lemma_name_value_is_declared(attributes: Seq<AttributeView>, at: int)
    requires
        0 <= at < attributes.len(),
        attributes[at].local_name == NAME_ATTRIBUTE@,
    ensures
        name_values(attributes).contains(attributes[at].value),
    decreases attributes.len(),
{
    let shorter = attributes.drop_last();
    let tail = if attributes.last().local_name == NAME_ATTRIBUTE@ {
        seq![attributes.last().value]
    } else {
        Seq::empty()
    };
    if at == attributes.len() - 1 {
        let listed = name_values(attributes);
        assert(listed[listed.len() - 1] == attributes[at].value);
    } else {
        lemma_name_value_is_declared(shorter, at);
        let before = name_values(shorter);
        let k = choose|k: int| 0 <= k < before.len() && before[k] == shorter[at].value;
        assert((before + tail)[k] == attributes[at].value);
    }
}

/// A start tag that the matcher for `id` accepts declares `id`.
proof fn lemma_accepted_tag_declares(token: TokenView, matcher: MatcherView, id: Seq<char>)
    requires
        removes_string(matcher, id),
        matcher.accepts_token(token),
    ensures
        token_definitions(token.kind).contains(id),
{
    match token.kind {
        KindView::StartElement { local_name, attributes } => {
            assert(has_attribute(attributes, NAME_ATTRIBUTE@));
            let at = choose|at: int|
                0 <= at < attributes.len() && (#[trigger] attributes[at]).local_name
                    == NAME_ATTRIBUTE@;
            lemma_name_value_is_declared(attributes, at);
        },
        _ => {},
    }
}

/// The record of a document lists what each of its events declares.
proof fn lemma_record_lists_each_declaration(
    tokens: Seq<TokenView>,
    pattern: Seq<char>,
    at: int,
    id: Seq<char>,
)
    requires
        0 <= at < tokens.len(),
        forall|i: int| 0 <= i <= at ==> !(#[trigger] tokens[i]).kind.is_terminal(),
        token_definitions(tokens[at].kind).contains(id),
        xml_facts(tokens, pattern) is Ok,
    ensures
        xml_facts(tokens, pattern)->Ok_0.definitions.contains(id),
    decreases tokens.len(),
{
    let rest = tokens.drop_first();
    let first = token_definitions(tokens[0].kind);
    assert(!tokens[0].kind.is_terminal());
    let later = xml_facts(rest, pattern)->Ok_0.definitions;
    let all = xml_facts(tokens, pattern)->Ok_0.definitions;
    assert(all == first + later);
    if at == 0 {
        let k = choose|k: int| 0 <= k < first.len() && first[k] == id;
        assert(all[k] == id);
    } else {
        assert forall|i: int| 0 <= i <= at - 1 implies !(#[trigger] rest[i]).kind.is_terminal() by {
            assert(rest[i] == tokens[i + 1]);
        }
        assert(rest[at - 1] == tokens[at]);
        lemma_record_lists_each_declaration(rest, pattern, at - 1, id);
        let k = choose|k: int| 0 <= k < later.len() && later[k] == id;
        assert(all[first.len() + k] == id);
    }
}

/// Removal is idle on absence. Where the record of a file that parses to
/// its end does not list `id` among its definitions, removing the `string`
/// element named `id` from the file finds no match: nothing is to be written,
/// and the file stays as it is, byte for byte.
pub proof fn lemma_undeclared_is_left_alone(
    content: Seq<u8>,
    pattern: Seq<char>,
    id: Seq<char>,
    matcher: MatcherView,
    outcome: Result<Option<Vec<u8>>, XmlFailure>,
)
    requires
        well_ended(xml_tokens(content)),
        xml_tokens(content).last().kind is EndDocument,
        xml_facts(xml_tokens(content), pattern) matches Ok(facts) && !facts.definitions.contains(
            id,
        ),
        removes_string(matcher, id),
        removal_reports(content, scan(xml_tokens(content), matcher), outcome),
    ensures
        scan(xml_tokens(content), matcher) is NoMatch,
        outcome matches Ok(None),
{
    let tokens = xml_tokens(content);
    assert forall|i: int| 0 <= i < tokens.len() implies !matcher.accepts_token(
        #[trigger] tokens[i],
    ) by {
        if matcher.accepts_token(tokens[i]) {
            lemma_accepted_tag_declares(tokens[i], matcher, id);
            assert(i < tokens.len() - 1);
            lemma_record_lists_each_declaration(tokens, pattern, i, id);
        }
    }
    lemma_absent_element_is_no_match(content, matcher, outcome);
}

} // verus!
