//! The events of an XML document as plain values, each with the row at which
//! the parser stood when it handed the event out.

use vstd::prelude::*;
use xml::reader::XmlEvent;

verus! {

/// One attribute of a start tag: its local name and its value.
pub struct Attribute {
    pub local_name: String,
    pub value: String,
}

/// An attribute as the contracts see it.
pub struct AttributeView {
    pub local_name: Seq<char>,
    pub value: Seq<char>,
}

impl View for Attribute {
    type V = AttributeView;

    open spec fn view(&self) -> AttributeView {
        AttributeView { local_name: self.local_name@, value: self.value@ }
    }
}

impl DeepView for Attribute {
    type V = AttributeView;

    open spec fn deep_view(&self) -> AttributeView {
        self@
    }
}

/// What a parse event is, reduced to what the index and the editor read.
pub enum TokenKind {
    /// A start tag, by local name, with its attributes in document order.
    StartElement { local_name: String, attributes: Vec<Attribute> },
    /// An end tag. An empty-element tag gives a start and an end.
    EndElement,
    /// A CDATA section.
    CData(String),
    /// The end of a well-formed document.
    EndDocument,
    /// The parser gave up; `message` is its report.
    Malformed { message: String },
    /// Any other event: text, comments, processing instructions.
    Other,
}

/// An event as the contracts see it.
pub enum KindView {
    StartElement { local_name: Seq<char>, attributes: Seq<AttributeView> },
    EndElement,
    CData(Seq<char>),
    EndDocument,
    Malformed { message: Seq<char> },
    Other,
}

impl View for TokenKind {
    type V = KindView;

    open spec fn view(&self) -> KindView {
        match self {
            TokenKind::StartElement { local_name, attributes } => KindView::StartElement {
                local_name: local_name@,
                attributes: attributes.deep_view(),
            },
            TokenKind::EndElement => KindView::EndElement,
            TokenKind::CData(text) => KindView::CData(text@),
            TokenKind::EndDocument => KindView::EndDocument,
            TokenKind::Malformed { message } => KindView::Malformed { message: message@ },
            TokenKind::Other => KindView::Other,
        }
    }
}

impl KindView {
    /// No event follows an end of document or a failure.
    pub open spec fn is_terminal(self) -> bool {
        self is EndDocument || self is Malformed
    }
}

impl TokenKind {
    /// Whether the parser hands out nothing new after this event.
    pub fn is_terminal(&self) -> (terminal: bool)
        ensures
            terminal == self@.is_terminal(),
    {
        match self {
            TokenKind::EndDocument => true,
            TokenKind::Malformed { .. } => true,
            _ => false,
        }
    }
}

/// An event and the zero-based row that the parser reported for it.
pub struct XmlToken {
    pub kind: TokenKind,
    pub row: u64,
}

/// A token as the contracts see it.
pub struct TokenView {
    pub kind: KindView,
    pub row: u64,
}

impl View for XmlToken {
    type V = TokenView;

    open spec fn view(&self) -> TokenView {
        TokenView { kind: self.kind@, row: self.row }
    }
}

impl DeepView for XmlToken {
    type V = TokenView;

    open spec fn deep_view(&self) -> TokenView {
        self@
    }
}

/// A token sequence is complete when it ends in its only terminal event.
pub open spec fn well_ended(tokens: Seq<TokenView>) -> bool {
    &&& tokens.len() > 0
    &&& tokens.last().kind.is_terminal()
    &&& forall|i: int| 0 <= i < tokens.len() - 1 ==> !(#[trigger] tokens[i]).kind.is_terminal()
}

/// A start tag opens an element and an end tag closes one.
pub open spec fn tag_balance(kind: KindView) -> int {
    match kind {
        KindView::StartElement { .. } => 1,
        KindView::EndElement => -1,
        _ => 0,
    }
}

/// The start tags among the tokens, less the end tags.
pub open spec fn balance(tokens: Seq<TokenView>) -> int
    decreases tokens.len(),
{
    if tokens.len() == 0 {
        0
    } else {
        balance(tokens.drop_last()) + tag_balance(tokens.last().kind)
    }
}

/// Elements are closed after they are opened, and a document that ends has
/// closed every element that it opened.
pub open spec fn well_nested(tokens: Seq<TokenView>) -> bool {
    &&& forall|upto: int| 0 <= upto <= tokens.len() ==> #[trigger] balance(tokens.take(upto)) >= 0
    &&& tokens.len() > 0 && tokens.last().kind is EndDocument ==> balance(tokens) == 0
}

/// The events that `xml::reader::EventReader` yields on `content`, from the
/// first up to and including the end of the document or the first failure,
/// each with the row that the reader reports after yielding it.
pub uninterp spec fn xml_tokens(content: Seq<u8>) -> Seq<TokenView>;

/// An `xml::reader::EventReader` over a byte slice. Nothing inside it is
/// seen here; what it holds goes by the two names below.
#[verifier::external_body]
pub struct TokenReader<'a> {
    inner: xml::reader::EventReader<&'a [u8]>,
}

/// The events that the reader has not handed out yet.
pub uninterp spec fn pending_tokens(reader: TokenReader<'_>) -> Seq<TokenView>;

/// The row of the event that the reader handed out last.
pub uninterp spec fn reported_row(reader: TokenReader<'_>) -> u64;

/// What `Display` prints for a failure of the parser.
pub uninterp spec fn failure_report(error: xml::reader::Error) -> Seq<char>;

/// `EventReader::new` on a byte slice. The reader holds the events of
/// `content`; parsing a finite slice ends, in an end of document or in a
/// failure, and nothing new comes after either. The parser keeps the open
/// elements on a stack: it yields an end tag only for the element on top, and
/// the end of the document only when none is open.
#[verifier::external_body]
fn open_reader<'a>(content: &'a [u8]) -> (reader: TokenReader<'a>)
    ensures
        pending_tokens(reader) == xml_tokens(content@),
        well_ended(pending_tokens(reader)),
        well_nested(pending_tokens(reader)),
{
    TokenReader { inner: xml::reader::EventReader::new(content) }
}

/// `EventReader::next`, not called again once the last event is out. Hands
/// out the first pending event: the parser's error where it failed, else the
/// event by its variant, keeping local names, attribute values and CDATA text.
#[verifier::external_body]
fn next_event(reader: &mut TokenReader) -> (event: Result<TokenKind, xml::reader::Error>)
    requires
        pending_tokens(*old(reader)).len() > 0,
    ensures
        pending_tokens(*final(reader)) == pending_tokens(*old(reader)).drop_first(),
        reported_row(*final(reader)) == pending_tokens(*old(reader)).first().row,
        event matches Ok(kind) ==> kind@ == pending_tokens(*old(reader)).first().kind,
        event matches Err(error) ==> pending_tokens(*old(reader)).first().kind == (
        KindView::Malformed { message: failure_report(error) }),
        event is Err <==> pending_tokens(*old(reader)).first().kind is Malformed,
{
    match reader.inner.next() {
        Ok(XmlEvent::StartElement { name, attributes, .. }) => Ok(
            TokenKind::StartElement {
                local_name: name.local_name,
                attributes: attributes.into_iter().map(
                    |a| Attribute { local_name: a.name.local_name, value: a.value },
                ).collect(),
            },
        ),
        Ok(XmlEvent::EndElement { .. }) => Ok(TokenKind::EndElement),
        Ok(XmlEvent::CData(text)) => Ok(TokenKind::CData(text)),
        Ok(XmlEvent::EndDocument) => Ok(TokenKind::EndDocument),
        Ok(_) => Ok(TokenKind::Other),
        Err(e) => Err(e),
    }
}

/// `Position::position` of the reader: the row, counted from zero, of the
/// event handed out last.
#[verifier::external_body]
fn current_row(reader: &TokenReader) -> (row: u64)
    ensures
        row == reported_row(*reader),
{
    xml::common::Position::position(&reader.inner).row
}

/// `to_string` on the parser's error: what `Display` prints for it.
#[verifier::external_body]
fn failure_text(error: &xml::reader::Error) -> (text: String)
    ensures
        text@ == failure_report(*error),
{
    error.to_string()
}

/// `xml::reader::Error`: a failure of the parser, carried as it comes.
#[verifier::external_type_specification]
#[verifier::external_body]
pub struct ExXmlError(xml::reader::Error);

/// Parses `content` to the end or to the first failure and returns every
/// event on the way, the terminal one last.
pub fn tokenize(content: &[u8]) -> (tokens: Vec<XmlToken>)
    ensures
        tokens.deep_view() == xml_tokens(content@),
        well_ended(tokens.deep_view()),
        well_nested(tokens.deep_view()),
{
    let mut reader = open_reader(content);
    let mut tokens: Vec<XmlToken> = Vec::new();
    let mut done = false;
    assert(tokens.deep_view() + pending_tokens(reader) =~= xml_tokens(content@));
    while !done
        invariant
            well_ended(xml_tokens(content@)),
            well_nested(xml_tokens(content@)),
            tokens.deep_view() + pending_tokens(reader) == xml_tokens(content@),
            done <==> pending_tokens(reader).len() == 0,
        decreases pending_tokens(reader).len(),
    {
        let ghost before = tokens.deep_view();
        let ghost ahead = pending_tokens(reader);
        let event = next_event(&mut reader);
        let row = current_row(&reader);
        let kind = match event {
            Ok(kind) => kind,
            Err(error) => TokenKind::Malformed { message: failure_text(&error) },
        };
        done = kind.is_terminal();
        let token = XmlToken { kind, row };
        assert(token@ == ahead.first());
        tokens.push(token);
        proof {
            assert(tokens.deep_view() =~= before.push(ahead.first()));
            assert(before.push(ahead.first()) + ahead.drop_first() =~= before + ahead);
            assert(xml_tokens(content@)[before.len() as int] == ahead.first());
        }
    }
    assert(tokens.deep_view() =~= tokens.deep_view() + pending_tokens(reader));
    tokens
}

} // verus!
