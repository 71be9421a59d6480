use aster::report::string_matcher;
use aster::tokens::{tokenize, Attribute, TokenKind, XmlToken};
use aster::xeditor::{
    find_location_to_strip, locate, remove_element, remove_lines, ElementLocation, ElementMatcher,
};

fn string_named(id: &str) -> ElementMatcher {
    let mut matcher = ElementMatcher::for_local_name("string");
    matcher.attr("name", id);
    matcher
}

fn start(local_name: &str, attributes: &[(&str, &str)], row: u64) -> XmlToken {
    XmlToken {
        kind: TokenKind::StartElement {
            local_name: local_name.to_string(),
            attributes: attributes
                .iter()
                .map(|(name, value)| Attribute {
                    local_name: name.to_string(),
                    value: value.to_string(),
                })
                .collect(),
        },
        row,
    }
}

fn end(row: u64) -> XmlToken {
    XmlToken { kind: TokenKind::EndElement, row }
}

fn end_of_document(row: u64) -> XmlToken {
    XmlToken { kind: TokenKind::EndDocument, row }
}

const NESTED: &str = "<resources>\n<string name=\"a\">x<nested/></string>\n<string name=\"b\">y</string>\n</resources>";

#[test]
fn removes_only_the_lines_of_the_matched_element() {
    let rewritten = remove_element(NESTED.as_bytes(), &string_named("a")).unwrap().unwrap();
    assert_eq!(
        String::from_utf8(rewritten).unwrap(),
        "<resources>\n<string name=\"b\">y</string>\n</resources>"
    );
}

#[test]
fn removes_a_later_sibling_and_keeps_the_earlier() {
    let rewritten = remove_element(NESTED.as_bytes(), &string_named("b")).unwrap().unwrap();
    assert_eq!(
        String::from_utf8(rewritten).unwrap(),
        "<resources>\n<string name=\"a\">x<nested/></string>\n</resources>"
    );
}

#[test]
fn absent_identifier_leaves_the_file_alone() {
    let outcome = remove_element(NESTED.as_bytes(), &string_named("missing")).unwrap();
    assert!(outcome.is_none());
    assert_eq!(find_location_to_strip(NESTED.as_bytes(), &string_named("missing")).unwrap(), None);
}

#[test]
fn location_counts_lines_from_one() {
    let location = find_location_to_strip(NESTED.as_bytes(), &string_named("a")).unwrap();
    assert_eq!(location, Some(ElementLocation { start_line: 2, end_line: 2 }));
    let location = find_location_to_strip(NESTED.as_bytes(), &string_named("b")).unwrap();
    assert_eq!(location, Some(ElementLocation { start_line: 3, end_line: 3 }));
}

#[test]
fn element_on_the_first_line_is_line_one() {
    let content = "<string name=\"a\">x</string>";
    let location = find_location_to_strip(content.as_bytes(), &string_named("a")).unwrap();
    assert_eq!(location, Some(ElementLocation { start_line: 1, end_line: 1 }));
    let rewritten = remove_element(content.as_bytes(), &string_named("a")).unwrap().unwrap();
    assert!(rewritten.is_empty());
}

#[test]
fn nested_elements_of_the_same_name_do_not_end_the_match() {
    let content = "<r>\n<string name=\"a\">\n<string>inner</string>\n<string>\n</string>\n</string>\n<string name=\"b\"/>\n</r>\n";
    let matcher = string_named("a");
    let location = find_location_to_strip(content.as_bytes(), &matcher).unwrap();
    assert_eq!(location, Some(ElementLocation { start_line: 2, end_line: 6 }));
    let rewritten = remove_element(content.as_bytes(), &matcher).unwrap().unwrap();
    assert_eq!(String::from_utf8(rewritten).unwrap(), "<r>\n<string name=\"b\"/>\n</r>\n");
}

#[test]
fn only_the_first_match_is_removed() {
    let content = "<r>\n<string name=\"a\">1</string>\n<string name=\"a\">2</string>\n</r>\n";
    let rewritten = remove_element(content.as_bytes(), &string_named("a")).unwrap().unwrap();
    assert_eq!(String::from_utf8(rewritten).unwrap(), "<r>\n<string name=\"a\">2</string>\n</r>\n");
}

#[test]
fn line_ends_are_kept_as_they_are() {
    let content = "<r>\r\n<string name=\"a\">1</string>\r\n<string name=\"b\">2</string>\r\n</r>";
    let rewritten = remove_element(content.as_bytes(), &string_named("a")).unwrap().unwrap();
    assert_eq!(String::from_utf8(rewritten).unwrap(), "<r>\r\n<string name=\"b\">2</string>\r\n</r>");
}

#[test]
fn malformed_document_is_a_failure() {
    let content = "<r>\n<string name=\"b\">1</string>\n</oops>";
    assert!(remove_element(content.as_bytes(), &string_named("a")).is_err());
    assert!(find_location_to_strip(content.as_bytes(), &string_named("a")).is_err());
}

#[test]
fn match_before_a_failure_is_still_found() {
    let content = "<r>\n<string name=\"a\">1</string>\n</oops>";
    let location = find_location_to_strip(content.as_bytes(), &string_named("a")).unwrap();
    assert_eq!(location, Some(ElementLocation { start_line: 2, end_line: 2 }));
}

#[test]
fn remove_lines_cuts_the_span_and_nothing_else() {
    let content = b"one\ntwo\nthree\nfour";
    let span = ElementLocation { start_line: 2, end_line: 3 };
    assert_eq!(remove_lines(content, span), b"one\nfour".to_vec());
    let first = ElementLocation { start_line: 1, end_line: 1 };
    assert_eq!(remove_lines(content, first), b"two\nthree\nfour".to_vec());
    let last = ElementLocation { start_line: 4, end_line: 9 };
    assert_eq!(remove_lines(content, last), b"one\ntwo\nthree\n".to_vec());
    let beyond = ElementLocation { start_line: 5, end_line: 6 };
    assert_eq!(remove_lines(content, beyond), content.to_vec());
    let empty = ElementLocation { start_line: 3, end_line: 2 };
    assert_eq!(remove_lines(content, empty), content.to_vec());
    let from_zero = ElementLocation { start_line: 0, end_line: 1 };
    assert_eq!(remove_lines(content, from_zero), b"two\nthree\nfour".to_vec());
}

#[test]
fn matcher_tests_the_name_and_the_named_attributes() {
    let matcher = string_named("a");
    let name = "string".to_string();
    let attribute = |local_name: &str, value: &str| Attribute {
        local_name: local_name.to_string(),
        value: value.to_string(),
    };
    assert!(matcher.matches(&name, &vec![attribute("name", "a")]));
    assert!(matcher.matches(&name, &vec![attribute("other", "x"), attribute("name", "a")]));
    assert!(!matcher.matches(&name, &vec![attribute("name", "b")]));
    assert!(!matcher.matches(&"plurals".to_string(), &vec![attribute("name", "a")]));
    assert!(!matcher.matches(&name, &vec![]));
    assert!(!matcher.matches(&name, &vec![attribute("other", "a")]));
    assert!(!matcher.matches(&name, &vec![attribute("name", "a"), attribute("name", "b")]));
    assert!(matcher.matches(&name, &vec![attribute("name", "a"), attribute("name", "a")]));
    assert!(ElementMatcher::for_local_name("string").matches(&name, &vec![attribute("name", "z")]));
    assert!(ElementMatcher::for_local_name("string").matches(&name, &vec![]));
}

#[test]
fn attr_chains_and_replaces() {
    let mut matcher = ElementMatcher::for_local_name("string");
    matcher.attr("name", "a").attr("lang", "en").attr("name", "b");
    let name = "string".to_string();
    let attribute = |local_name: &str, value: &str| Attribute {
        local_name: local_name.to_string(),
        value: value.to_string(),
    };
    assert!(matcher.matches(&name, &vec![attribute("name", "b"), attribute("lang", "en")]));
    assert!(!matcher.matches(&name, &vec![attribute("name", "a"), attribute("lang", "en")]));
    assert!(!matcher.matches(&name, &vec![attribute("name", "b"), attribute("lang", "fr")]));
    assert!(!matcher.matches(&name, &vec![attribute("name", "b")]));
    assert!(!matcher.matches(&name, &vec![attribute("lang", "en")]));
}

#[test]
fn element_without_the_attribute_is_not_the_one() {
    let content = "<r>\n<string>anonymous</string>\n<string name=\"a\">x</string>\n</r>";
    let location = find_location_to_strip(content.as_bytes(), &string_named("a")).unwrap();
    assert_eq!(location, Some(ElementLocation { start_line: 3, end_line: 3 }));
    assert!(remove_element(content.as_bytes(), &string_named("b")).unwrap().is_none());
}

#[test]
fn failure_carries_the_report_of_the_parser() {
    let failure = remove_element(b"<r>\n</oops>", &string_named("a")).unwrap_err();
    assert_eq!(failure.message, "2:7 Unexpected closing tag: oops != r");
}

#[test]
fn locate_follows_the_depth_of_the_match() {
    let tokens = vec![
        start("resources", &[], 0),
        start("string", &[("name", "a")], 1),
        start("string", &[("name", "a")], 2),
        end(3),
        start("b", &[], 4),
        end(4),
        end(5),
        end(6),
        end_of_document(6),
    ];
    let found = locate(&tokens, &string_named("a")).unwrap();
    assert_eq!(found, Some(ElementLocation { start_line: 2, end_line: 6 }));
}

#[test]
fn locate_without_a_match_or_an_end() {
    let matcher = string_named("a");
    let tokens = vec![start("resources", &[], 0), end(0), end_of_document(0)];
    assert_eq!(locate(&tokens, &matcher).unwrap(), None);
    let unfinished = vec![start("string", &[("name", "a")], 0)];
    assert_eq!(locate(&unfinished, &matcher).unwrap(), None);
    let cut_short = vec![start("string", &[("name", "a")], 7), end_of_document(8)];
    assert_eq!(locate(&cut_short, &matcher).unwrap(), None);
    assert_eq!(locate(&Vec::new(), &matcher).unwrap(), None);
}

#[test]
fn locate_reports_the_failure_of_the_parser() {
    let tokens = vec![
        start("resources", &[], 0),
        XmlToken { kind: TokenKind::Malformed { message: "bad".to_string() }, row: 1 },
    ];
    let failure = locate(&tokens, &string_named("a")).unwrap_err();
    assert_eq!(failure.message, "bad");
}

#[test]
fn last_row_keeps_its_number() {
    let tokens = vec![start("string", &[("name", "a")], u64::MAX), end(u64::MAX)];
    let found = locate(&tokens, &string_named("a")).unwrap();
    assert_eq!(found, Some(ElementLocation { start_line: u64::MAX, end_line: u64::MAX }));
}

#[test]
fn tokenize_gives_events_with_their_rows() {
    let tokens = tokenize(b"<a>\n<b k=\"v\"/>\n<![CDATA[text]]></a>");
    let rows: Vec<u64> = tokens.iter().map(|token| token.row).collect();
    let kinds: Vec<&str> = tokens
        .iter()
        .map(|token| match &token.kind {
            TokenKind::StartElement { .. } => "start",
            TokenKind::EndElement => "end",
            TokenKind::CData(_) => "cdata",
            TokenKind::EndDocument => "done",
            TokenKind::Malformed { .. } => "malformed",
            TokenKind::Other => "other",
        })
        .collect();
    assert_eq!(kinds, vec!["other", "start", "other", "start", "end", "other", "cdata", "end", "done"]);
    assert_eq!(rows[1], 0);
    assert_eq!(rows[3], 1);
    assert_eq!(rows[4], 1);
    assert_eq!(rows[6], 2);
    assert_eq!(rows[7], 2);
    match &tokens[3].kind {
        TokenKind::StartElement { local_name, attributes } => {
            assert_eq!(local_name, "b");
            assert_eq!(attributes.len(), 1);
            assert_eq!(attributes[0].local_name, "k");
            assert_eq!(attributes[0].value, "v");
        }
        _ => panic!("a start tag was expected"),
    }
    match &tokens[6].kind {
        TokenKind::CData(text) => assert_eq!(text, "text"),
        _ => panic!("a CDATA section was expected"),
    }
}

#[test]
fn tokenize_ends_in_the_failure() {
    let tokens = tokenize(b"<a><b></a>");
    let last = tokens.last().unwrap();
    assert!(matches!(last.kind, TokenKind::Malformed { .. }));
    let terminals = tokens
        .iter()
        .filter(|token| matches!(token.kind, TokenKind::Malformed { .. } | TokenKind::EndDocument))
        .count();
    assert_eq!(terminals, 1);
    assert!(matches!(tokenize(b"").last().unwrap().kind, TokenKind::Malformed { .. }));
}

#[test]
fn local_names_drop_the_prefix() {
    let content = "<r xmlns:t=\"urn:t\">\n<t:string t:name=\"a\">x</t:string>\n</r>";
    let location = find_location_to_strip(content.as_bytes(), &string_named("a")).unwrap();
    assert_eq!(location, Some(ElementLocation { start_line: 2, end_line: 2 }));
}

#[test]
fn removing_again_finds_nothing_more() {
    let matcher = string_named("a");
    let once = remove_element(NESTED.as_bytes(), &matcher).unwrap().unwrap();
    assert!(remove_element(&once, &matcher).unwrap().is_none());
    let other = remove_element(&once, &string_named("b")).unwrap().unwrap();
    assert_eq!(String::from_utf8(other).unwrap(), "<resources>\n</resources>");
}

#[test]
fn empty_element_tag_is_removed_with_its_line() {
    let content = "<r>\n  <string name=\"a\"/>\n  <string name=\"b\"/>\n</r>\n";
    let rewritten = remove_element(content.as_bytes(), &string_named("a")).unwrap().unwrap();
    assert_eq!(String::from_utf8(rewritten).unwrap(), "<r>\n  <string name=\"b\"/>\n</r>\n");
}

#[test]
fn element_over_several_lines_is_removed_whole() {
    let content = "<r>\n<string\n    name=\"a\">\n  text\n</string>\n<string name=\"b\">y</string>\n</r>\n";
    let location = find_location_to_strip(content.as_bytes(), &string_named("a")).unwrap();
    assert_eq!(location, Some(ElementLocation { start_line: 2, end_line: 5 }));
    let rewritten = remove_element(content.as_bytes(), &string_named("a")).unwrap().unwrap();
    assert_eq!(String::from_utf8(rewritten).unwrap(), "<r>\n<string name=\"b\">y</string>\n</r>\n");
}

#[test]
fn string_matcher_asks_for_the_name_alone() {
    let matcher = string_matcher("a");
    let attribute = |local_name: &str, value: &str| Attribute {
        local_name: local_name.to_string(),
        value: value.to_string(),
    };
    let string = "string".to_string();
    assert!(matcher.matches(&string, &vec![attribute("name", "a")]));
    assert!(matcher.matches(&string, &vec![attribute("formatted", "false"), attribute("name", "a")]));
    assert!(!matcher.matches(&string, &vec![attribute("name", "b")]));
    assert!(!matcher.matches(&string, &vec![attribute("id", "a")]));
    assert!(!matcher.matches(&"plurals".to_string(), &vec![attribute("name", "a")]));
    let rewritten = remove_element(NESTED.as_bytes(), &matcher).unwrap().unwrap();
    assert_eq!(rewritten, remove_element(NESTED.as_bytes(), &string_named("a")).unwrap().unwrap());
}
