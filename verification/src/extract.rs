//! What one file says about string identifiers: the declarations and
//! references in a resource or manifest file, and the references in a source
//! file.

use crate::index::{FileKind, FileView, Indexer, ResourceFile};
use crate::patterns::{
    capture, captures_in_line, captures_of, compile, first_capture, matcher_compiles,
    matcher_pattern, matching_lines, matching_lines_of, new_matcher, regex_compiles,
    regex_pattern,
};
use crate::text::{contains, occurs_in};
use crate::tokens::{
    tokenize, xml_tokens, AttributeView, KindView, TokenKind, TokenView, XmlToken,
};
use regex::Regex;
use vstd::prelude::*;

verus! {

/// A text that holds no reference does not hold this.
pub const STRING_MARKER: &'static str = "@string";

/// A reference in a resource or manifest file; the first group is the
/// identifier.
pub const XML_USAGE_PATTERN: &'static str = r"(?m)@string/(\w+)";

/// A reference in a source file: the access path `R.string.`, letter for
/// letter, and after it the identifier, which is the first group.
pub const SOURCE_USAGE_PATTERN: &'static str = r"R\.string\.(\w+)";

/// The local name of the elements that declare an identifier.
pub const STRING_ELEMENT: &'static str = "string";

/// The local name of the attribute that holds the declared identifier.
pub const NAME_ATTRIBUTE: &'static str = "name";

/// Why a file gave no record.
#[derive(Debug)]
pub enum IndexError {
    /// The usage pattern with which the file had to be searched did not
    /// compile.
    BadPattern,
    /// The file is not well-formed XML.
    MalformedXml { path: String, message: String },
    /// The search through a source file failed.
    Unsearchable { path: String },
}

/// The declarations and references found in a file.
pub struct Facts {
    pub definitions: Seq<Seq<char>>,
    pub usages: Seq<Seq<char>>,
}

impl Facts {
    /// No declaration and no reference.
    pub open spec fn none() -> Facts {
        Facts { definitions: Seq::empty(), usages: Seq::empty() }
    }

    /// The given facts, followed by those of `rest`.
    pub open spec fn before(
        definitions: Seq<Seq<char>>,
        usages: Seq<Seq<char>>,
        rest: Result<Facts, Seq<char>>,
    ) -> Result<Facts, Seq<char>> {
        match rest {
            Ok(rest) => Ok(
                Facts {
                    definitions: definitions + rest.definitions,
                    usages: usages + rest.usages,
                },
            ),
            Err(report) => Err(report),
        }
    }
}

/// The reference that a text holds: where the text holds the marker, the
/// first group of the leftmost match of `pattern` in it, if there is one.
pub open spec fn usage_in(pattern: Seq<char>, text: Seq<char>) -> Seq<Seq<char>> {
    if occurs_in(STRING_MARKER@, text) {
        match first_capture(pattern, text, 1) {
            Some(id) => seq![id],
            None => Seq::empty(),
        }
    } else {
        Seq::empty()
    }
}

/// The references in the values of the attributes, one at most from each.
pub open spec fn attribute_usages(pattern: Seq<char>, attributes: Seq<AttributeView>) -> Seq<
    Seq<char>,
>
    decreases attributes.len(),
{
    if attributes.len() == 0 {
        Seq::empty()
    } else {
        attribute_usages(pattern, attributes.drop_last()) + usage_in(
            pattern,
            attributes.last().value,
        )
    }
}

/// The values of the attributes whose local name is `name`.
pub open spec fn name_values(attributes: Seq<AttributeView>) -> Seq<Seq<char>>
    decreases attributes.len(),
{
    if attributes.len() == 0 {
        Seq::empty()
    } else {
        name_values(attributes.drop_last()) + if attributes.last().local_name == NAME_ATTRIBUTE@ {
            seq![attributes.last().value]
        } else {
            Seq::empty()
        }
    }
}

/// What a start tag declares: a `string` element declares the value of its
/// `name` attribute.
pub open spec fn declared_by(local_name: Seq<char>, attributes: Seq<AttributeView>) -> Seq<
    Seq<char>,
> {
    if local_name == STRING_ELEMENT@ {
        name_values(attributes)
    } else {
        Seq::empty()
    }
}

/// The identifiers that one event declares.
pub open spec fn token_definitions(kind: KindView) -> Seq<Seq<char>> {
    match kind {
        KindView::StartElement { local_name, attributes } => declared_by(local_name, attributes),
        _ => Seq::empty(),
    }
}

/// The identifiers that one event references: those in the attribute values
/// of a start tag, and the one in a CDATA section.
pub open spec fn token_usages(pattern: Seq<char>, kind: KindView) -> Seq<Seq<char>> {
    match kind {
        KindView::StartElement { attributes, .. } => attribute_usages(pattern, attributes),
        KindView::CData(text) => usage_in(pattern, text),
        _ => Seq::empty(),
    }
}

/// The facts in a document, event by event up to its end; the parser's
/// report where it failed before the end.
pub open spec fn xml_facts(tokens: Seq<TokenView>, pattern: Seq<char>) -> Result<Facts, Seq<char>>
    decreases tokens.len(),
{
    if tokens.len() == 0 {
        Ok(Facts::none())
    } else {
        match tokens.first().kind {
            KindView::EndDocument => Ok(Facts::none()),
            KindView::Malformed { message } => Err(message),
            kind => Facts::before(
                token_definitions(kind),
                token_usages(pattern, kind),
                xml_facts(tokens.drop_first(), pattern),
            ),
        }
    }
}

/// Whether gathering the facts of a document comes upon a text that holds the
/// marker, before the document ends or the parser fails. Such a text is
/// searched with the usage pattern.
pub open spec fn needs_pattern(tokens: Seq<TokenView>) -> bool
    decreases tokens.len(),
{
    if tokens.len() == 0 || tokens.first().kind.is_terminal() {
        false
    } else {
        holds_marker(tokens.first().kind) || needs_pattern(tokens.drop_first())
    }
}

/// The usage pattern is at hand wherever the document needs it: it compiles,
/// or no text is searched with it.
pub open spec fn pattern_ready(tokens: Seq<TokenView>) -> bool {
    regex_compiles(XML_USAGE_PATTERN@) || !needs_pattern(tokens)
}

/// What indexing a resource or manifest file returns: the record of its
/// facts, or the reason why there is none. `ready` says whether the usage
/// pattern is at hand wherever the document needs it.
pub open spec fn xml_outcome(
    path: Seq<char>,
    ready: bool,
    facts: Result<Facts, Seq<char>>,
    outcome: Result<ResourceFile, IndexError>,
) -> bool {
    if !ready {
        outcome matches Err(IndexError::BadPattern)
    } else {
        match facts {
            Ok(facts) => {
                &&& outcome matches Ok(file)
                &&& file@ == FileView {
                    path,
                    definitions: facts.definitions,
                    usages: facts.usages,
                }
            },
            Err(report) => {
                &&& outcome matches Err(IndexError::MalformedXml { path: at, message })
                &&& at@ == path
                &&& message@ == report
            },
        }
    }
}

/// The texts that were captured, in their order.
pub open spec fn captured(found: Seq<Option<Seq<char>>>) -> Seq<Seq<char>>
    decreases found.len(),
{
    if found.len() == 0 {
        Seq::empty()
    } else {
        captured(found.drop_last()) + match found.last() {
            Some(text) => seq![text],
            None => Seq::empty(),
        }
    }
}

/// The references in the matching lines of a source file: line by line, the
/// first group of each match of `pattern`.
pub open spec fn source_usages(pattern: Seq<char>, lines: Seq<Seq<char>>) -> Seq<Seq<char>>
    decreases lines.len(),
{
    if lines.len() == 0 {
        Seq::empty()
    } else {
        source_usages(pattern, lines.drop_last()) + captured(captures_of(pattern, lines.last(), 1))
    }
}

/// What indexing a source file returns.
pub open spec fn source_outcome(
    path: Seq<char>,
    compiles: bool,
    lines: Option<Seq<Seq<char>>>,
    pattern: Seq<char>,
    outcome: Result<ResourceFile, IndexError>,
) -> bool {
    if !compiles {
        outcome matches Err(IndexError::BadPattern)
    } else {
        match lines {
            Some(lines) => {
                &&& outcome matches Ok(file)
                &&& file@ == FileView {
                    path,
                    definitions: Seq::empty(),
                    usages: source_usages(pattern, lines),
                }
            },
            None => {
                &&& outcome matches Err(IndexError::Unsearchable { path: at })
                &&& at@ == path
            },
        }
    }
}

/// Facts after none are those facts.
proof fn lemma_nothing_before(facts: Result<Facts, Seq<char>>)
    ensures
        Facts::before(Seq::empty(), Seq::empty(), facts) == facts,
{
    if let Ok(found) = facts {
        assert(Seq::<Seq<char>>::empty() + found.definitions =~= found.definitions);
        assert(Seq::<Seq<char>>::empty() + found.usages =~= found.usages);
    }
}

/// Facts before facts before others come before the others together.
proof fn lemma_before_twice(
    definitions: Seq<Seq<char>>,
    usages: Seq<Seq<char>>,
    more_definitions: Seq<Seq<char>>,
    more_usages: Seq<Seq<char>>,
    rest: Result<Facts, Seq<char>>,
)
    ensures
        Facts::before(definitions, usages, Facts::before(more_definitions, more_usages, rest))
            == Facts::before(definitions + more_definitions, usages + more_usages, rest),
{
    if let Ok(found) = rest {
        assert(definitions + (more_definitions + found.definitions) =~= (definitions
            + more_definitions) + found.definitions);
        assert(usages + (more_usages + found.usages) =~= (usages + more_usages) + found.usages);
    }
}

/// A start tag with the marker in the value of an attribute holds the marker.
proof fn lemma_marker_in_attribute(local_name: Seq<char>, attributes: Seq<AttributeView>, at: int)
    requires
        0 <= at < attributes.len(),
        occurs_in(STRING_MARKER@, attributes[at].value),
    ensures
        holds_marker(KindView::StartElement { local_name, attributes }),
{
    let kind = KindView::StartElement { local_name, attributes };
    assert(kind->StartElement_attributes[at] == attributes[at]);
}

/// Records the reference that `text` holds, if it holds one. A text that
/// holds the marker is searched with the pattern; where that did not compile,
/// nothing is recorded and the answer is `false`.
fn push_usage(usages: &mut Vec<String>, pattern: &Result<Regex, regex::Error>, text: &str) -> (done:
    bool)
    ensures
        done <==> pattern is Ok || !occurs_in(STRING_MARKER@, text@),
        pattern matches Ok(regex) ==> final(usages).deep_view() == old(usages).deep_view()
            + usage_in(regex_pattern(*regex), text@),
        pattern is Err ==> final(usages).deep_view() == old(usages).deep_view(),
{
    let ghost before = usages.deep_view();
    if contains(text, STRING_MARKER) {
        match pattern {
            Ok(regex) => {
                match capture(regex, text, 1) {
                    Some(id) => {
                        usages.push(id);
                        assert(usages.deep_view() =~= before + seq![id@]);
                    },
                    None => {
                        assert(usages.deep_view() =~= before + Seq::<Seq<char>>::empty());
                    },
                }
                true
            },
            Err(_) => false,
        }
    } else {
        assert(usages.deep_view() =~= before + Seq::<Seq<char>>::empty());
        true
    }
}

/// Records the texts that were captured.
pub fn keep_captured(usages: &mut Vec<String>, found: &Vec<Option<String>>)
    ensures
        final(usages).deep_view() == old(usages).deep_view() + captured(found.deep_view()),
{
    let ghost before = usages.deep_view();
    let ghost all = found.deep_view();
    let mut k: usize = 0;
    assert(usages.deep_view() =~= before + captured(all.take(0)));
    while k < found.len()
        invariant
            k <= found.len(),
            all == found.deep_view(),
            usages.deep_view() == before + captured(all.take(k as int)),
        decreases found.len() - k,
    {
        let ghost kept = usages.deep_view();
        proof {
            assert(all.take(k + 1).drop_last() =~= all.take(k as int));
            assert(all.take(k + 1).last() == found[k as int].deep_view());
        }
        match &found[k] {
            Some(text) => {
                usages.push(text.clone());
                assert(usages.deep_view() =~= kept.push(text@));
                assert(usages.deep_view() =~= before + captured(all.take(k + 1)));
            },
            None => {
                assert(usages.deep_view() =~= before + captured(all.take(k + 1)));
            },
        }
        k += 1;
    }
    assert(all.take(k as int) =~= all);
}

impl Indexer {
    /// Gathers the facts of a resource or manifest file from its events, up
    /// to the end of the document. Stops at the first text that holds the
    /// marker if the usage pattern does not compile, and at a failure of the
    /// parser.
    pub fn index_xml_tokens(path: &str, tokens: &Vec<XmlToken>) -> (outcome: Result<
        ResourceFile,
        IndexError,
    >)
        ensures
            xml_outcome(
                path@,
                pattern_ready(tokens.deep_view()),
                xml_facts(tokens.deep_view(), XML_USAGE_PATTERN@),
                outcome,
            ),
    {
        let pattern = compile(XML_USAGE_PATTERN);
        let string_element = STRING_ELEMENT.to_owned();
        let name_attribute = NAME_ATTRIBUTE.to_owned();
        let ghost text = XML_USAGE_PATTERN@;
        let ghost all = tokens.deep_view();
        let mut definitions: Vec<String> = Vec::new();
        let mut usages: Vec<String> = Vec::new();
        let mut i: usize = 0;
        proof {
            assert(all.skip(0) =~= all);
            lemma_nothing_before(xml_facts(all, text));
        }
        while i < tokens.len()
            invariant
                i <= tokens.len(),
                all == tokens.deep_view(),
                text == XML_USAGE_PATTERN@,
                pattern is Ok <==> regex_compiles(text),
                pattern matches Ok(regex) ==> regex_pattern(regex) == text,
                pattern is Err ==> needs_pattern(all) == needs_pattern(all.skip(i as int)),
                string_element@ == STRING_ELEMENT@,
                name_attribute@ == NAME_ATTRIBUTE@,
                xml_facts(all, text) == Facts::before(
                    definitions.deep_view(),
                    usages.deep_view(),
                    xml_facts(all.skip(i as int), text),
                ),
            decreases tokens.len() - i,
        {
            let token = &tokens[i];
            let ghost definitions_before = definitions.deep_view();
            let ghost usages_before = usages.deep_view();
            let ghost rest = xml_facts(all.skip(i + 1), text);
            proof {
                assert(all.skip(i as int).first() == token@);
                assert(all.skip(i as int).drop_first() =~= all.skip(i + 1));
            }
            match &token.kind {
                TokenKind::StartElement { local_name, attributes } => {
                    let declares = *local_name == string_element;
                    let ghost listed = attributes.deep_view();
                    let mut j: usize = 0;
                    proof {
                        assert(usages.deep_view() =~= usages_before + attribute_usages(
                            text,
                            listed.take(0),
                        ));
                        assert(definitions.deep_view() =~= definitions_before + declared_by(
                            local_name@,
                            listed.take(0),
                        ));
                    }
                    while j < attributes.len()
                        invariant
                            j <= attributes.len(),
                            listed == attributes.deep_view(),
                            token@.kind == (KindView::StartElement {
                                local_name: local_name@,
                                attributes: listed,
                            }),
                            i < tokens.len(),
                            all == tokens.deep_view(),
                            text == XML_USAGE_PATTERN@,
                            all.skip(i as int).first() == token@,
                            pattern is Ok <==> regex_compiles(text),
                            pattern is Err ==> needs_pattern(all) == needs_pattern(
                                all.skip(i as int),
                            ),
                            pattern matches Ok(regex) ==> regex_pattern(regex) == text,
                            pattern is Err ==> forall|k: int|
                                0 <= k < j ==> !occurs_in(
                                    STRING_MARKER@,
                                    (#[trigger] listed[k]).value,
                                ),
                            name_attribute@ == NAME_ATTRIBUTE@,
                            declares == (local_name@ == STRING_ELEMENT@),
                            usages.deep_view() == usages_before + attribute_usages(
                                text,
                                listed.take(j as int),
                            ),
                            definitions.deep_view() == definitions_before + declared_by(
                                local_name@,
                                listed.take(j as int),
                            ),
                        decreases attributes.len() - j,
                    {
                        let attribute = &attributes[j];
                        let ghost usages_so_far = usages.deep_view();
                        let ghost definitions_so_far = definitions.deep_view();
                        proof {
                            assert(listed.take(j + 1).drop_last() =~= listed.take(j as int));
                            assert(listed.take(j + 1).last() == attribute@);
                        }
                        if !push_usage(&mut usages, &pattern, attribute.value.as_str()) {
                            proof {
                                assert(0 <= j < listed.len() && listed[j as int] == attribute@);
                                assert(occurs_in(STRING_MARKER@, listed[j as int].value));
                                lemma_marker_in_attribute(local_name@, listed, j as int);
                            }
                            return Err(IndexError::BadPattern);
                        }
                        assert(usages.deep_view() =~= usages_so_far + usage_in(
                            text,
                            attribute.value@,
                        ));
                        if declares && attribute.local_name == name_attribute {
                            definitions.push(attribute.value.clone());
                            assert(definitions.deep_view() =~= definitions_so_far.push(
                                attribute.value@,
                            ));
                        }
                        proof {
                            assert(usages.deep_view() =~= usages_before + attribute_usages(
                                text,
                                listed.take(j + 1),
                            ));
                            assert(definitions.deep_view() =~= definitions_before + declared_by(
                                local_name@,
                                listed.take(j + 1),
                            ));
                        }
                        j += 1;
                    }
                    proof {
                        assert(listed.take(j as int) =~= listed);
                        assert(pattern is Err ==> !holds_marker(token@.kind));
                        lemma_before_twice(
                            definitions_before,
                            usages_before,
                            token_definitions(token@.kind),
                            token_usages(text, token@.kind),
                            rest,
                        );
                    }
                },
                TokenKind::CData(data) => {
                    if !push_usage(&mut usages, &pattern, data.as_str()) {
                        proof {
                            assert(holds_marker(token@.kind));
                        }
                        return Err(IndexError::BadPattern);
                    }
                    proof {
                        assert(usages.deep_view() =~= usages_before + usage_in(text, data@));
                        assert(definitions.deep_view() =~= definitions_before + Seq::<
                            Seq<char>,
                        >::empty());
                        lemma_before_twice(
                            definitions_before,
                            usages_before,
                            token_definitions(token@.kind),
                            token_usages(text, token@.kind),
                            rest,
                        );
                    }
                },
                TokenKind::EndDocument => {
                    proof {
                        assert(definitions.deep_view() + Seq::<Seq<char>>::empty()
                            =~= definitions.deep_view());
                        assert(usages.deep_view() + Seq::<Seq<char>>::empty()
                            =~= usages.deep_view());
                    }
                    return Ok(
                        ResourceFile {
                            path: path.to_owned(),
                            string_definitions: definitions,
                            string_usages: usages,
                        },
                    );
                },
                TokenKind::Malformed { message } => {
                    return Err(
                        IndexError::MalformedXml {
                            path: path.to_owned(),
                            message: message.clone(),
                        },
                    );
                },
                _ => {
                    proof {
                        assert(definitions.deep_view() =~= definitions_before + Seq::<
                            Seq<char>,
                        >::empty());
                        assert(usages.deep_view() =~= usages_before + Seq::<Seq<char>>::empty());
                        lemma_before_twice(
                            definitions_before,
                            usages_before,
                            token_definitions(token@.kind),
                            token_usages(text, token@.kind),
                            rest,
                        );
                    }
                },
            }
            i += 1;
        }
        proof {
            assert(definitions.deep_view() + Seq::<Seq<char>>::empty() =~= definitions.deep_view());
            assert(usages.deep_view() + Seq::<Seq<char>>::empty() =~= usages.deep_view());
        }
        Ok(
            ResourceFile {
                path: path.to_owned(),
                string_definitions: definitions,
                string_usages: usages,
            },
        )
    }

    /// Reads one file with the extractor of its kind.
    pub fn index_file(kind: FileKind, path: &str, content: &[u8]) -> (outcome: Result<
        ResourceFile,
        IndexError,
    >)
        ensures
            match kind {
                FileKind::Markup => xml_outcome(
                    path@,
                    pattern_ready(xml_tokens(content@)),
                    xml_facts(xml_tokens(content@), XML_USAGE_PATTERN@),
                    outcome,
                ),
                FileKind::Source => source_outcome(
                    path@,
                    matcher_compiles(SOURCE_USAGE_PATTERN@),
                    matching_lines_of(SOURCE_USAGE_PATTERN@, content@),
                    SOURCE_USAGE_PATTERN@,
                    outcome,
                ),
            },
    {
        match kind {
            FileKind::Markup => Self::index_xml_file(path, content),
            FileKind::Source => Self::index_source_file(path, content),
        }
    }

    /// Parses a resource or manifest file and gathers its facts.
    pub fn index_xml_file(path: &str, content: &[u8]) -> (outcome: Result<ResourceFile, IndexError>)
        ensures
            xml_outcome(
                path@,
                pattern_ready(xml_tokens(content@)),
                xml_facts(xml_tokens(content@), XML_USAGE_PATTERN@),
                outcome,
            ),
    {
        let tokens = tokenize(content);
        Self::index_xml_tokens(path, &tokens)
    }

    /// Searches a source file for references. A source file declares nothing.
    pub fn index_source_file(path: &str, content: &[u8]) -> (outcome: Result<
        ResourceFile,
        IndexError,
    >)
        ensures
            source_outcome(
                path@,
                matcher_compiles(SOURCE_USAGE_PATTERN@),
                matching_lines_of(SOURCE_USAGE_PATTERN@, content@),
                SOURCE_USAGE_PATTERN@,
                outcome,
            ),
    {
        let matcher = match new_matcher(SOURCE_USAGE_PATTERN) {
            Ok(matcher) => matcher,
            Err(_) => {
                return Err(IndexError::BadPattern);
            },
        };
        let lines = match matching_lines(&matcher, content) {
            Ok(lines) => lines,
            Err(_) => {
                return Err(IndexError::Unsearchable { path: path.to_owned() });
            },
        };
        let ghost text = SOURCE_USAGE_PATTERN@;
        let ghost all = lines.deep_view();
        let mut usages: Vec<String> = Vec::new();
        let mut i: usize = 0;
        assert(usages.deep_view() =~= source_usages(text, all.take(0)));
        while i < lines.len()
            invariant
                i <= lines.len(),
                all == lines.deep_view(),
                matcher_pattern(matcher) == text,
                usages.deep_view() == source_usages(text, all.take(i as int)),
            decreases lines.len() - i,
        {
            proof {
                assert(all.take(i + 1).drop_last() =~= all.take(i as int));
                assert(all.take(i + 1).last() == lines[i as int]@);
            }
            let found = captures_in_line(&matcher, lines[i].as_str(), 1);
            keep_captured(&mut usages, &found);
            i += 1;
        }
        assert(all.take(i as int) =~= all);
        Ok(
            ResourceFile {
                path: path.to_owned(),
                string_definitions: Vec::new(),
                string_usages: usages,
            },
        )
    }
}

/// The occurrences of `pattern` in the matching lines, line by line and in
/// the order of the matches, each with what its first group captured.
pub open spec fn occurrences(pattern: Seq<char>, lines: Seq<Seq<char>>) -> Seq<Option<Seq<char>>>
    decreases lines.len(),
{
    if lines.len() == 0 {
        Seq::empty()
    } else {
        occurrences(pattern, lines.drop_last()) + captures_of(pattern, lines.last(), 1)
    }
}

proof fn lemma_captured_of_both(first: Seq<Option<Seq<char>>>, second: Seq<Option<Seq<char>>>)
    ensures
        captured(first + second) == captured(first) + captured(second),
    decreases second.len(),
{
    if second.len() == 0 {
        assert(first + second =~= first);
        assert(captured(first) + captured(second) =~= captured(first));
    } else {
        assert((first + second).drop_last() =~= first + second.drop_last());
        assert((first + second).last() == second.last());
        lemma_captured_of_both(first, second.drop_last());
        let tail = match second.last() {
            Some(text) => seq![text],
            None => Seq::empty(),
        };
        assert(captured(first) + (captured(second.drop_last()) + tail) =~= (captured(first)
            + captured(second.drop_last())) + tail);
    }
}

proof fn lemma_all_captured(found: Seq<Option<Seq<char>>>)
    requires
        forall|k: int| 0 <= k < found.len() ==> (#[trigger] found[k]) is Some,
    ensures
        captured(found).len() == found.len(),
        forall|k: int| 0 <= k < found.len() ==> found[k] == Some(#[trigger] captured(found)[k]),
    decreases found.len(),
{
    if found.len() > 0 {
        assert forall|k: int| 0 <= k < found.drop_last().len() implies (
        #[trigger] found.drop_last()[k]) is Some by {
            assert(found.drop_last()[k] == found[k]);
        }
        lemma_all_captured(found.drop_last());
        assert(found[found.len() - 1] is Some);
        assert forall|k: int| 0 <= k < found.len() implies found[k] == Some(
            #[trigger] captured(found)[k],
        ) by {
            if k < found.len() - 1 {
                assert(found.drop_last()[k] == found[k]);
            }
        }
    }
}

/// One usage for each occurrence. The usages of a source file are what the
/// occurrences of the pattern in it captured, in their order; where every
/// occurrence captured an identifier, there are as many usages as
/// occurrences, and each usage is the identifier that its occurrence
/// captured.
pub proof fn lemma_one_usage_for_each_occurrence(pattern: Seq<char>, lines: Seq<Seq<char>>)
    ensures
        source_usages(pattern, lines) == captured(occurrences(pattern, lines)),
        (forall|k: int|
            0 <= k < occurrences(pattern, lines).len() ==> (#[trigger] occurrences(
                pattern,
                lines,
            )[k]) is Some) ==> {
            &&& source_usages(pattern, lines).len() == occurrences(pattern, lines).len()
            &&& forall|k: int|
                0 <= k < occurrences(pattern, lines).len() ==> occurrences(pattern, lines)[k]
                    == Some(#[trigger] source_usages(pattern, lines)[k])
        },
    decreases lines.len(),
{
    if lines.len() > 0 {
        lemma_one_usage_for_each_occurrence(pattern, lines.drop_last());
        lemma_captured_of_both(
            occurrences(pattern, lines.drop_last()),
            captures_of(pattern, lines.last(), 1),
        );
    }
    if forall|k: int|
        0 <= k < occurrences(pattern, lines).len() ==> (#[trigger] occurrences(
            pattern,
            lines,
        )[k]) is Some {
        lemma_all_captured(occurrences(pattern, lines));
    }
}

/// Whether an event holds the reference marker: in the value of an attribute
/// of a start tag, or in a CDATA section.
pub open spec fn holds_marker(kind: KindView) -> bool {
    match kind {
        KindView::StartElement { attributes, .. } => exists|j: int|
            0 <= j < attributes.len() && occurs_in(
                STRING_MARKER@,
                (#[trigger] attributes[j]).value,
            ),
        KindView::CData(text) => occurs_in(STRING_MARKER@, text),
        _ => false,
    }
}

proof fn lemma_no_marker_in_attributes(pattern: Seq<char>, attributes: Seq<AttributeView>)
    requires
        forall|j: int|
            0 <= j < attributes.len() ==> !occurs_in(
                STRING_MARKER@,
                (#[trigger] attributes[j]).value,
            ),
    ensures
        attribute_usages(pattern, attributes) == Seq::<Seq<char>>::empty(),
    decreases attributes.len(),
{
    if attributes.len() > 0 {
        assert forall|j: int| 0 <= j < attributes.drop_last().len() implies !occurs_in(
            STRING_MARKER@,
            (#[trigger] attributes.drop_last()[j]).value,
        ) by {
            assert(attributes.drop_last()[j] == attributes[j]);
        }
        lemma_no_marker_in_attributes(pattern, attributes.drop_last());
        assert(!occurs_in(STRING_MARKER@, attributes[attributes.len() - 1].value));
        assert(attribute_usages(pattern, attributes) =~= Seq::<Seq<char>>::empty());
    }
}

/// A file without the marker references nothing: where no attribute value
/// and no CDATA section of a document holds the marker, its record has no
/// usages.
pub proof fn lemma_no_marker_no_usages(tokens: Seq<TokenView>, pattern: Seq<char>)
    requires
        forall|i: int| 0 <= i < tokens.len() ==> !holds_marker((#[trigger] tokens[i]).kind),
    ensures
        xml_facts(tokens, pattern) matches Ok(facts) ==> facts.usages == Seq::<
            Seq<char>,
        >::empty(),
    decreases tokens.len(),
{
    if tokens.len() > 0 {
        let rest = tokens.drop_first();
        assert forall|i: int| 0 <= i < rest.len() implies !holds_marker(
            (#[trigger] rest[i]).kind,
        ) by {
            assert(rest[i] == tokens[i + 1]);
        }
        lemma_no_marker_no_usages(rest, pattern);
        assert(!holds_marker(tokens[0].kind));
        match tokens.first().kind {
            KindView::StartElement { attributes, .. } => {
                lemma_no_marker_in_attributes(pattern, attributes);
            },
            _ => {},
        }
        if let Ok(facts) = xml_facts(tokens, pattern) {
            assert(facts.usages =~= Seq::<Seq<char>>::empty());
        }
    }
}

/// One declaring element, one declaration: where the event at `at` is the
/// only one of a document that declares anything, and the document parses to
/// its end after it, the record's definitions are those of that event. For a
/// `string` element with one `name` attribute that is its value alone.
pub proof fn lemma_definitions_of_the_only_declaring_tag(
    tokens: Seq<TokenView>,
    pattern: Seq<char>,
    at: int,
)
    requires
        0 <= at < tokens.len(),
        forall|i: int|
            0 <= i < tokens.len() && i != at ==> token_definitions((#[trigger] tokens[i]).kind)
                == Seq::<Seq<char>>::empty(),
        forall|i: int| 0 <= i < tokens.len() ==> !((#[trigger] tokens[i]).kind is Malformed),
        forall|i: int| 0 <= i <= at ==> !((#[trigger] tokens[i]).kind is EndDocument),
    ensures
        xml_facts(tokens, pattern) matches Ok(facts) && facts.definitions == token_definitions(
            tokens[at].kind,
        ),
    decreases tokens.len(),
{
    let rest = tokens.drop_first();
    assert forall|i: int| 0 <= i < rest.len() implies !((#[trigger] rest[i]).kind is Malformed) by {
        assert(rest[i] == tokens[i + 1]);
    }
    assert(!(tokens[0].kind is Malformed));
    assert(!(tokens[0].kind is EndDocument));
    if at == 0 {
        assert forall|i: int| 0 <= i < rest.len() implies token_definitions(
            (#[trigger] rest[i]).kind,
        ) == Seq::<Seq<char>>::empty() by {
            assert(rest[i] == tokens[i + 1]);
        }
        lemma_nothing_declared(rest, pattern);
        let facts = xml_facts(tokens, pattern)->Ok_0;
        assert(facts.definitions =~= token_definitions(tokens[at].kind));
    } else {
        assert forall|i: int| 0 <= i < rest.len() && i != at - 1 implies token_definitions(
            (#[trigger] rest[i]).kind,
        ) == Seq::<Seq<char>>::empty() by {
            assert(rest[i] == tokens[i + 1]);
        }
        assert forall|i: int| 0 <= i <= at - 1 implies !(
        (#[trigger] rest[i]).kind is EndDocument) by {
            assert(rest[i] == tokens[i + 1]);
        }
        lemma_definitions_of_the_only_declaring_tag(rest, pattern, at - 1);
        assert(rest[at - 1] == tokens[at]);
        assert(token_definitions(tokens[0].kind) == Seq::<Seq<char>>::empty());
        let facts = xml_facts(tokens, pattern)->Ok_0;
        assert(facts.definitions =~= token_definitions(tokens[at].kind));
    }
}

proof fn lemma_nothing_declared(tokens: Seq<TokenView>, pattern: Seq<char>)
    requires
        forall|i: int|
            0 <= i < tokens.len() ==> token_definitions((#[trigger] tokens[i]).kind) == Seq::<
                Seq<char>,
            >::empty(),
        forall|i: int| 0 <= i < tokens.len() ==> !((#[trigger] tokens[i]).kind is Malformed),
    ensures
        xml_facts(tokens, pattern) matches Ok(facts) && facts.definitions == Seq::<
            Seq<char>,
        >::empty(),
    decreases tokens.len(),
{
    if tokens.len() > 0 {
        let rest = tokens.drop_first();
        assert forall|i: int| 0 <= i < rest.len() implies token_definitions(
            (#[trigger] rest[i]).kind,
        ) == Seq::<Seq<char>>::empty() && !(rest[i].kind is Malformed) by {
            assert(rest[i] == tokens[i + 1]);
        }
        lemma_nothing_declared(rest, pattern);
        assert(!(tokens[0].kind is Malformed));
        assert(token_definitions(tokens[0].kind) == Seq::<Seq<char>>::empty());
        let facts = xml_facts(tokens, pattern)->Ok_0;
        assert(facts.definitions =~= Seq::<Seq<char>>::empty());
    }
}

/// A `string` element whose only attribute is `name` declares its value.
pub proof fn lemma_string_element_declares_its_name(id: Seq<char>)
    ensures
        declared_by(
            STRING_ELEMENT@,
            seq![AttributeView { local_name: NAME_ATTRIBUTE@, value: id }],
        ) == seq![id],
{
    let attributes = seq![AttributeView { local_name: NAME_ATTRIBUTE@, value: id }];
    assert(attributes.drop_last() =~= Seq::<AttributeView>::empty());
    assert(name_values(attributes.drop_last()) == Seq::<Seq<char>>::empty());
    assert(name_values(attributes) =~= seq![id]);
}

/// A document without the marker is not searched with the usage pattern.
pub proof fn lemma_no_marker_needs_no_pattern(tokens: Seq<TokenView>)
    requires
        forall|i: int| 0 <= i < tokens.len() ==> !holds_marker((#[trigger] tokens[i]).kind),
    ensures
        !needs_pattern(tokens),
        pattern_ready(tokens),
    decreases tokens.len(),
{
    if tokens.len() > 0 {
        let rest = tokens.drop_first();
        assert forall|i: int| 0 <= i < rest.len() implies !holds_marker(
            (#[trigger] rest[i]).kind,
        ) by {
            assert(rest[i] == tokens[i + 1]);
        }
        lemma_no_marker_needs_no_pattern(rest);
        assert(!holds_marker(tokens[0].kind));
    }
}

/// One `string` element, one declaration, no usage. Where a file parses to
/// its end, the event at `at` is its only one that declares anything and
/// declares `id` alone, as a `string` element with the one attribute
/// `name="id"` does, and no attribute value and no CDATA section holds the
/// marker, indexing the file gives a record with the one definition `id`
/// and without usages.
pub proof fn lemma_one_declaration_and_no_usage(
    path: Seq<char>,
    tokens: Seq<TokenView>,
    at: int,
    id: Seq<char>,
    outcome: Result<ResourceFile, IndexError>,
)
    requires
        0 <= at < tokens.len(),
        token_definitions(tokens[at].kind) == seq![id],
        forall|i: int|
            0 <= i < tokens.len() && i != at ==> token_definitions((#[trigger] tokens[i]).kind)
                == Seq::<Seq<char>>::empty(),
        forall|i: int| 0 <= i < tokens.len() ==> !holds_marker((#[trigger] tokens[i]).kind),
        forall|i: int| 0 <= i < tokens.len() ==> !((#[trigger] tokens[i]).kind is Malformed),
        forall|i: int| 0 <= i <= at ==> !((#[trigger] tokens[i]).kind is EndDocument),
        xml_outcome(path, pattern_ready(tokens), xml_facts(tokens, XML_USAGE_PATTERN@), outcome),
    ensures
        outcome matches Ok(file) && file@ == (FileView {
            path,
            definitions: seq![id],
            usages: Seq::empty(),
        }),
{
    lemma_no_marker_needs_no_pattern(tokens);
    lemma_no_marker_no_usages(tokens, XML_USAGE_PATTERN@);
    lemma_definitions_of_the_only_declaring_tag(tokens, XML_USAGE_PATTERN@, at);
}

} // verus!
