//! Removal of one XML element from a file, by the exact span of lines it
//! occupies. Nothing else in the file is re-serialised.

use crate::tokens::{
    tokenize, well_ended, xml_tokens, Attribute, AttributeView, KindView, TokenKind, TokenView,
    XmlToken,
};
use vstd::prelude::*;

verus! {

/// A predicate on start tags: a local name, and values demanded of attributes
/// by their local names.
pub struct ElementMatcher {
    local_name: String,
    local_attribute_values: Vec<Attribute>,
}

/// A matcher as the contracts see it: its local name, and the value
/// demanded of each attribute that it names.
pub struct MatcherView {
    pub local_name: Seq<char>,
    pub required: Map<Seq<char>, Seq<char>>,
}

impl MatcherView {
    /// A start tag is accepted when it has the matcher's local name, has each
    /// attribute that the matcher names, and carries the demanded value in
    /// every attribute of such a name. Attributes that the matcher does not
    /// name are ignored.
    pub open spec fn accepts(self, local_name: Seq<char>, attributes: Seq<AttributeView>) -> bool {
        &&& self.local_name == local_name
        &&& forall|name: Seq<char>| #[trigger]
            self.required.contains_key(name) ==> has_attribute(attributes, name)
        &&& forall|i: int|
            0 <= i < attributes.len() && self.required.contains_key(
                (#[trigger] attributes[i]).local_name,
            ) ==> self.required[attributes[i].local_name] == attributes[i].value
    }

    /// Whether the token is a start tag that the matcher accepts.
    pub open spec fn accepts_token(self, token: TokenView) -> bool {
        match token.kind {
            KindView::StartElement { local_name, attributes } => self.accepts(
                local_name,
                attributes,
            ),
            _ => false,
        }
    }
}

/// Some attribute has the local name.
pub open spec fn has_attribute(attributes: Seq<AttributeView>, name: Seq<char>) -> bool {
    exists|i: int| 0 <= i < attributes.len() && (#[trigger] attributes[i]).local_name == name
}

/// The demands that a list of attributes stands for: each name with the
/// value that was demanded of it last.
pub open spec fn requirements(demands: Seq<AttributeView>) -> Map<Seq<char>, Seq<char>>
    decreases demands.len(),
{
    if demands.len() == 0 {
        Map::empty()
    } else {
        requirements(demands.drop_last()).insert(demands.last().local_name, demands.last().value)
    }
}

/// The demand on a name is the last one made of it.
proof fn lemma_last_demand_counts(demands: Seq<AttributeView>, name: Seq<char>, after: int)
    requires
        0 <= after <= demands.len(),
        forall|k: int| after <= k < demands.len() ==> (#[trigger] demands[k]).local_name != name,
    ensures
        after == 0 ==> !requirements(demands).contains_key(name),
        after > 0 && demands[after - 1].local_name == name ==> requirements(demands).contains_key(
            name,
        ) && requirements(demands)[name] == demands[after - 1].value,
    decreases demands.len(),
{
    if demands.len() > 0 && after < demands.len() {
        let shorter = demands.drop_last();
        assert(demands[demands.len() - 1].local_name != name);
        assert forall|k: int| after <= k < shorter.len() implies (#[trigger] shorter[k]).local_name
            != name by {
            assert(shorter[k] == demands[k]);
        }
        lemma_last_demand_counts(shorter, name, after);
        if after > 0 {
            assert(shorter[after - 1] == demands[after - 1]);
        }
    }
}

/// The names of which something is demanded are those of the list.
proof fn lemma_demanded_names(demands: Seq<AttributeView>, name: Seq<char>)
    ensures
        requirements(demands).contains_key(name) <==> has_attribute(demands, name),
    decreases demands.len(),
{
    if demands.len() > 0 {
        let shorter = demands.drop_last();
        lemma_demanded_names(shorter, name);
        if has_attribute(shorter, name) {
            let i = choose|i: int|
                0 <= i < shorter.len() && (#[trigger] shorter[i]).local_name == name;
            assert(demands[i] == shorter[i]);
        }
        if has_attribute(demands, name) && demands.last().local_name != name {
            let i = choose|i: int|
                0 <= i < demands.len() && (#[trigger] demands[i]).local_name == name;
            assert(shorter[i] == demands[i]);
        }
        if demands.last().local_name == name {
            assert(demands[demands.len() - 1].local_name == name);
        }
    }
}

impl View for ElementMatcher {
    type V = MatcherView;

    closed spec fn view(&self) -> MatcherView {
        MatcherView {
            local_name: self.local_name@,
            required: requirements(self.local_attribute_values.deep_view()),
        }
    }
}

impl ElementMatcher {
    /// A matcher for every element of the given local name.
    pub fn for_local_name(local_name: &str) -> (matcher: ElementMatcher)
        ensures
            matcher@ == (MatcherView { local_name: local_name@, required: Map::empty() }),
    {
        ElementMatcher { local_name: local_name.to_owned(), local_attribute_values: Vec::new() }
    }

    /// Demands `value` of the attribute `local_name`, in place of any value
    /// demanded of it before, and hands the matcher back for the next demand.
    pub fn attr<'a>(&'a mut self, local_name: &str, value: &str) -> (chained: &'a mut ElementMatcher)
        ensures
            chained@ == (MatcherView {
                local_name: old(self)@.local_name,
                required: old(self)@.required.insert(local_name@, value@),
            }),
            *final(self) == *final(chained),
    {
        let ghost before = self.local_attribute_values.deep_view();
        self.local_attribute_values.push(
            Attribute { local_name: local_name.to_owned(), value: value.to_owned() },
        );
        proof {
            let demand = AttributeView { local_name: local_name@, value: value@ };
            assert(self.local_attribute_values.deep_view() =~= before.push(demand));
            assert(before.push(demand).drop_last() =~= before);
        }
        self
    }

    /// The value demanded of an attribute, if one is.
    fn demanded(&self, local_name: &String) -> (value: Option<&String>)
        ensures
            value is Some <==> self@.required.contains_key(local_name@),
            value matches Some(demanded) ==> demanded@ == self@.required[local_name@],
    {
        let ghost demands = self.local_attribute_values.deep_view();
        let mut after: usize = self.local_attribute_values.len();
        while after > 0
            invariant
                after <= self.local_attribute_values.len(),
                demands == self.local_attribute_values.deep_view(),
                forall|k: int|
                    after <= k < demands.len() ==> (#[trigger] demands[k]).local_name
                        != local_name@,
            decreases after,
        {
            let demand = &self.local_attribute_values[after - 1];
            assert(demands[after - 1] == demand@);
            if demand.local_name == *local_name {
                proof {
                    lemma_last_demand_counts(demands, local_name@, after as int);
                }
                return Some(&demand.value);
            }
            after -= 1;
        }
        proof {
            lemma_last_demand_counts(demands, local_name@, 0);
        }
        None
    }

    /// Whether some attribute in the list has the local name.
    fn named_among(attributes: &Vec<Attribute>, local_name: &String) -> (found: bool)
        ensures
            found == has_attribute(attributes.deep_view(), local_name@),
    {
        let mut i: usize = 0;
        while i < attributes.len()
            invariant
                i <= attributes.len(),
                forall|k: int|
                    0 <= k < i ==> (#[trigger] attributes.deep_view()[k]).local_name
                        != local_name@,
            decreases attributes.len() - i,
        {
            assert(attributes.deep_view()[i as int] == attributes[i as int]@);
            if attributes[i].local_name == *local_name {
                return true;
            }
            i += 1;
        }
        false
    }

    /// Tests a start tag, given by its local name and attributes.
    pub fn matches(&self, local_name: &String, attributes: &Vec<Attribute>) -> (accepted: bool)
        ensures
            accepted == self@.accepts(local_name@, attributes.deep_view()),
    {
        if !(self.local_name == *local_name) {
            return false;
        }
        let ghost demands = self.local_attribute_values.deep_view();
        let ghost listed = attributes.deep_view();
        let mut d: usize = 0;
        while d < self.local_attribute_values.len()
            invariant
                d <= self.local_attribute_values.len(),
                demands == self.local_attribute_values.deep_view(),
                listed == attributes.deep_view(),
                forall|k: int|
                    0 <= k < d ==> has_attribute(listed, (#[trigger] demands[k]).local_name),
            decreases self.local_attribute_values.len() - d,
        {
            let demand = &self.local_attribute_values[d];
            assert(demands[d as int] == demand@);
            if !Self::named_among(attributes, &demand.local_name) {
                proof {
                    lemma_demanded_names(demands, demand.local_name@);
                    assert(self@.required.contains_key(demand.local_name@));
                }
                return false;
            }
            d += 1;
        }
        proof {
            assert forall|name: Seq<char>| #[trigger]
                self@.required.contains_key(name) implies has_attribute(listed, name) by {
                lemma_demanded_names(demands, name);
                let k = choose|k: int|
                    0 <= k < demands.len() && (#[trigger] demands[k]).local_name == name;
                assert(has_attribute(listed, demands[k].local_name));
            }
        }
        let mut i: usize = 0;
        while i < attributes.len()
            invariant
                i <= attributes.len(),
                listed == attributes.deep_view(),
                self@.local_name == local_name@,
                forall|name: Seq<char>| #[trigger]
                    self@.required.contains_key(name) ==> has_attribute(listed, name),
                forall|j: int|
                    0 <= j < i && self@.required.contains_key((#[trigger] listed[j]).local_name)
                        ==> self@.required[listed[j].local_name] == listed[j].value,
            decreases attributes.len() - i,
        {
            let attribute = &attributes[i];
            assert(listed[i as int] == attribute@);
            match self.demanded(&attribute.local_name) {
                Some(required) => {
                    if !(*required == attribute.value) {
                        return false;
                    }
                },
                None => {},
            }
            i += 1;
        }
        true
    }
}

/// The lines that a matched element spans, counted from 1, both ends included.
#[derive(Debug, Clone, Copy, PartialEq, Eq, Structural)]
pub struct ElementLocation {
    pub start_line: u64,
    pub end_line: u64,
}

/// A document that the parser could not read to its end.
#[derive(Debug)]
pub struct XmlFailure {
    pub message: String,
}

/// The line, counted from 1, of a row counted from 0. The last row that a
/// `u64` can hold keeps its number.
pub open spec fn line_of_row(row: u64) -> u64 {
    if row < u64::MAX {
        (row + 1) as u64
    } else {
        row
    }
}

/// The states of the search for the element to remove.
pub enum Scan {
    /// No start tag has matched yet; `depth` counts the open elements.
    Scanning { depth: int },
    /// Inside the matched element, which was opened at `start_depth`.
    InsideMatch { start_line: u64, start_depth: int, depth: int },
    /// The matched element has been closed.
    Found { start_line: u64, end_line: u64 },
    /// The document ended first.
    NoMatch,
    /// The parser failed first, with this report.
    Failed { message: Seq<char> },
}

impl Scan {
    /// `Found`, `NoMatch` and `Failed` end the search.
    pub open spec fn is_settled(self) -> bool {
        self is Found || self is NoMatch || self is Failed
    }
}

/// One transition of the search.
///
/// A start tag opens one more element; while scanning, the first start tag
/// that the matcher accepts becomes the match, and its depth is recorded. An
/// end tag inside the match closes the match itself when the depth is the
/// recorded one, and a descendant otherwise; any other end tag closes one
/// element.
pub open spec fn scan_step(state: Scan, token: TokenView, matcher: MatcherView) -> Scan {
    match state {
        Scan::Scanning { depth } => match token.kind {
            KindView::StartElement { local_name, attributes } => if matcher.accepts(
                local_name,
                attributes,
            ) {
                Scan::InsideMatch {
                    start_line: line_of_row(token.row),
                    start_depth: depth + 1,
                    depth: depth + 1,
                }
            } else {
                Scan::Scanning { depth: depth + 1 }
            },
            KindView::EndElement => Scan::Scanning { depth: depth - 1 },
            KindView::EndDocument => Scan::NoMatch,
            KindView::Malformed { message } => Scan::Failed { message },
            _ => state,
        },
        Scan::InsideMatch { start_line, start_depth, depth } => match token.kind {
            KindView::StartElement { .. } => Scan::InsideMatch {
                start_line,
                start_depth,
                depth: depth + 1,
            },
            KindView::EndElement => if depth == start_depth {
                Scan::Found { start_line, end_line: line_of_row(token.row) }
            } else {
                Scan::InsideMatch { start_line, start_depth, depth: depth - 1 }
            },
            KindView::EndDocument => Scan::NoMatch,
            KindView::Malformed { message } => Scan::Failed { message },
            _ => state,
        },
        _ => state,
    }
}

/// The state of the search after the given tokens, from an empty document.
pub open spec fn scan(tokens: Seq<TokenView>, matcher: MatcherView) -> Scan
    decreases tokens.len(),
{
    if tokens.len() == 0 {
        Scan::Scanning { depth: 0 }
    } else {
        scan_step(scan(tokens.drop_last(), matcher), tokens.last(), matcher)
    }
}

/// What a caller learns from a search: the span where it ended in `Found`,
/// a failure where the parser failed, and no span otherwise.
pub open spec fn reports(
    state: Scan,
    outcome: Result<Option<ElementLocation>, XmlFailure>,
) -> bool {
    match state {
        Scan::Found { start_line, end_line } => outcome == Ok::<
            Option<ElementLocation>,
            XmlFailure,
        >(Some(ElementLocation { start_line, end_line })),
        Scan::Failed { message } => {
            &&& outcome matches Err(failure)
            &&& failure.message@ == message
        },
        _ => outcome == Ok::<Option<ElementLocation>, XmlFailure>(None),
    }
}

/// A settled search stays as it is, whatever follows.
pub proof fn lemma_settled_scan_stays(tokens: Seq<TokenView>, upto: int, matcher: MatcherView)
    requires
        0 <= upto <= tokens.len(),
        scan(tokens.take(upto), matcher).is_settled(),
    ensures
        scan(tokens, matcher) == scan(tokens.take(upto), matcher),
    decreases tokens.len() - upto,
{
    if upto == tokens.len() {
        assert(tokens.take(upto) =~= tokens);
    } else {
        assert(tokens.take(upto + 1).drop_last() =~= tokens.take(upto));
        lemma_settled_scan_stays(tokens, upto + 1, matcher);
    }
}

fn line_number(row: u64) -> (line: u64)
    ensures
        line == line_of_row(row),
{
    if row < u64::MAX {
        row + 1
    } else {
        row
    }
}

/// Runs the search over a token sequence.
pub fn locate(tokens: &Vec<XmlToken>, matcher: &ElementMatcher) -> (outcome: Result<
    Option<ElementLocation>,
    XmlFailure,
>)
    ensures
        reports(scan(tokens.deep_view(), matcher@), outcome),
{
    let ghost all = tokens.deep_view();
    let mut inside = false;
    let mut start_line: u64 = 0;
    let mut nested: usize = 0;
    let mut i: usize = 0;
    while i < tokens.len()
        invariant
            i <= tokens.len(),
            all == tokens.deep_view(),
            match scan(all.take(i as int), matcher@) {
                Scan::Scanning { .. } => !inside,
                Scan::InsideMatch { start_line: line, start_depth, depth } => inside && line
                    == start_line && depth - start_depth == nested && nested <= i,
                _ => false,
            },
        decreases tokens.len() - i,
    {
        let token = &tokens[i];
        proof {
            assert(all.take(i + 1).drop_last() =~= all.take(i as int));
            assert(all.take(i + 1).last() == token@);
        }
        match &token.kind {
            TokenKind::StartElement { local_name, attributes } => {
                if inside {
                    nested = nested + 1;
                } else if matcher.matches(local_name, attributes) {
                    inside = true;
                    start_line = line_number(token.row);
                    nested = 0;
                }
            },
            TokenKind::EndElement => {
                if inside {
                    if nested == 0 {
                        proof {
                            lemma_settled_scan_stays(all, i + 1, matcher@);
                        }
                        return Ok(
                            Some(ElementLocation { start_line, end_line: line_number(token.row) }),
                        );
                    }
                    nested = nested - 1;
                }
            },
            TokenKind::EndDocument => {
                proof {
                    lemma_settled_scan_stays(all, i + 1, matcher@);
                }
                return Ok(None);
            },
            TokenKind::Malformed { message } => {
                proof {
                    lemma_settled_scan_stays(all, i + 1, matcher@);
                }
                return Err(XmlFailure { message: message.clone() });
            },
            _ => {},
        }
        i += 1;
    }
    assert(all.take(i as int) =~= all);
    Ok(None)
}

/// Parses `file_content` and searches it for the first element that the
/// matcher accepts.
pub fn find_location_to_strip(file_content: &[u8], matcher: &ElementMatcher) -> (outcome: Result<
    Option<ElementLocation>,
    XmlFailure,
>)
    ensures
        reports(scan(xml_tokens(file_content@), matcher@), outcome),
{
    let tokens = tokenize(file_content);
    locate(&tokens, matcher)
}

/// How many line feeds stand before position `i`.
pub open spec fn newlines_before(content: Seq<u8>, i: int) -> int
    decreases i,
{
    if i <= 0 {
        0
    } else {
        newlines_before(content, i - 1) + if content[i - 1] == 10u8 {
            1int
        } else {
            0int
        }
    }
}

/// The line, counted from 1, of the byte at position `i`. A line feed ends
/// the line it stands on.
pub open spec fn line_of_byte(content: Seq<u8>, i: int) -> int {
    newlines_before(content, i) + 1
}

/// The bytes of `content`, in order, that stand on no line from `first` to
/// `last`.
pub open spec fn without_lines(content: Seq<u8>, first: int, last: int) -> Seq<u8>
    decreases content.len(),
{
    if content.len() == 0 {
        Seq::empty()
    } else {
        let i = content.len() - 1;
        let kept = without_lines(content.drop_last(), first, last);
        if first <= line_of_byte(content, i) <= last {
            kept
        } else {
            kept.push(content[i])
        }
    }
}

/// The line of a byte depends on the bytes before it alone.
pub proof fn lemma_newlines_of_prefix(content: Seq<u8>, upto: int, i: int)
    requires
        0 <= i <= upto <= content.len(),
    ensures
        newlines_before(content.take(upto), i) == newlines_before(content, i),
        0 <= newlines_before(content, i) <= i,
    decreases i,
{
    if i > 0 {
        lemma_newlines_of_prefix(content, upto, i - 1);
    }
}

/// Copies `content` without the lines of `location`. Every other byte is
/// kept as it is, line ends included.
pub fn remove_lines(content: &[u8], location: ElementLocation) -> (kept: Vec<u8>)
    ensures
        kept@ == without_lines(content@, location.start_line as int, location.end_line as int),
{
    let ghost first = location.start_line as int;
    let ghost last = location.end_line as int;
    let mut kept: Vec<u8> = Vec::new();
    let mut row: usize = 0;
    let mut i: usize = 0;
    while i < content.len()
        invariant
            i <= content.len(),
            first == location.start_line,
            last == location.end_line,
            row == newlines_before(content@, i as int),
            row <= i,
            kept@ == without_lines(content@.take(i as int), first, last),
        decreases content.len() - i,
    {
        let byte = content[i];
        let line_in_span = (row as u64) < location.end_line && (location.start_line == 0
            || row as u64 >= location.start_line - 1);
        proof {
            lemma_newlines_of_prefix(content@, i + 1, i as int);
            assert(content@.take(i + 1).drop_last() =~= content@.take(i as int));
            assert(line_in_span <==> first <= line_of_byte(content@.take(i + 1), i as int) <= last);
        }
        if !line_in_span {
            kept.push(byte);
        }
        if byte == 10u8 {
            row = row + 1;
        }
        i += 1;
    }
    assert(content@.take(i as int) =~= content@);
    kept
}

/// What `remove_element` returns on a document with the given tokens: the
/// content without the matched element's lines where the search found one,
/// nothing to write where the document ended without a match, and a failure
/// where the parser failed first.
pub open spec fn removal_reports(
    content: Seq<u8>,
    state: Scan,
    outcome: Result<Option<Vec<u8>>, XmlFailure>,
) -> bool {
    match state {
        Scan::Found { start_line, end_line } => {
            &&& outcome matches Ok(Some(rewritten))
            &&& rewritten@ == without_lines(content, start_line as int, end_line as int)
        },
        Scan::Failed { message } => {
            &&& outcome matches Err(failure)
            &&& failure.message@ == message
        },
        _ => outcome matches Ok(None),
    }
}

/// Cuts the first element that the matcher accepts out of `file_content`.
///
/// Returns the new content where an element was found, and `None`, for a file
/// to be left untouched, where none was.
pub fn remove_element(file_content: &[u8], matcher: &ElementMatcher) -> (outcome: Result<
    Option<Vec<u8>>,
    XmlFailure,
>)
    ensures
        removal_reports(file_content@, scan(xml_tokens(file_content@), matcher@), outcome),
{
    match find_location_to_strip(file_content, matcher) {
        Ok(Some(location)) => Ok(Some(remove_lines(file_content, location))),
        Ok(None) => Ok(None),
        Err(failure) => Err(failure),
    }
}

/// While no start tag is accepted and the document goes on, the search is
/// still scanning.
proof fn lemma_scanning_goes_on(tokens: Seq<TokenView>, matcher: MatcherView)
    requires
        forall|i: int| 0 <= i < tokens.len() ==> !matcher.accepts_token(#[trigger] tokens[i]),
        forall|i: int| 0 <= i < tokens.len() ==> !(#[trigger] tokens[i]).kind.is_terminal(),
    ensures
        scan(tokens, matcher) is Scanning,
    decreases tokens.len(),
{
    if tokens.len() > 0 {
        let shorter = tokens.drop_last();
        assert forall|i: int| 0 <= i < shorter.len() implies !matcher.accepts_token(
            #[trigger] shorter[i],
        ) && !shorter[i].kind.is_terminal() by {
            assert(shorter[i] == tokens[i]);
        }
        lemma_scanning_goes_on(shorter, matcher);
        assert(!matcher.accepts_token(tokens[tokens.len() - 1]));
        assert(!tokens[tokens.len() - 1].kind.is_terminal());
    }
}

/// Removal changes nothing where the element is absent: in a document that
/// parses to its end and in which no start tag satisfies the matcher, the
/// search ends without a match, so `remove_element` has nothing to write.
pub proof fn lemma_absent_element_is_no_match(
    content: Seq<u8>,
    matcher: MatcherView,
    outcome: Result<Option<Vec<u8>>, XmlFailure>,
)
    requires
        well_ended(xml_tokens(content)),
        xml_tokens(content).last().kind is EndDocument,
        forall|i: int|
            0 <= i < xml_tokens(content).len() ==> !matcher.accepts_token(
                #[trigger] xml_tokens(content)[i],
            ),
        removal_reports(content, scan(xml_tokens(content), matcher), outcome),
    ensures
        scan(xml_tokens(content), matcher) is NoMatch,
        outcome matches Ok(None),
{
    let tokens = xml_tokens(content);
    let shorter = tokens.drop_last();
    assert forall|i: int| 0 <= i < shorter.len() implies !matcher.accepts_token(
        #[trigger] shorter[i],
    ) && !shorter[i].kind.is_terminal() by {
        assert(shorter[i] == tokens[i]);
    }
    lemma_scanning_goes_on(shorter, matcher);
}

/// The position of the first byte that stands on line `line` or on a later
/// one; the length of `content` where there is none.
pub open spec fn offset_of_line(content: Seq<u8>, line: int) -> int
    decreases content.len(),
{
    if content.len() == 0 {
        0
    } else if line_of_byte(content, content.len() - 1) < line {
        content.len() as int
    } else {
        offset_of_line(content.drop_last(), line)
    }
}

/// Lines do not go back: a later byte stands on the same line or a later one.
pub proof fn lemma_lines_ascend(content: Seq<u8>, i: int, j: int)
    requires
        0 <= i <= j,
    ensures
        line_of_byte(content, i) <= line_of_byte(content, j),
    decreases j - i,
{
    if i < j {
        lemma_lines_ascend(content, i, j - 1);
    }
}

/// `offset_of_line` parts the bytes on earlier lines from the others.
pub proof fn lemma_offset_of_line_parts(content: Seq<u8>, line: int)
    ensures
        0 <= offset_of_line(content, line) <= content.len(),
        forall|i: int|
            0 <= i < offset_of_line(content, line) ==> #[trigger] line_of_byte(content, i) < line,
        forall|i: int|
            offset_of_line(content, line) <= i < content.len() ==> #[trigger] line_of_byte(
                content,
                i,
            ) >= line,
    decreases content.len(),
{
    if content.len() > 0 {
        let n = content.len() as int;
        let shorter = content.drop_last();
        lemma_offset_of_line_parts(shorter, line);
        assert forall|i: int| 0 <= i < n - 1 implies line_of_byte(shorter, i) == line_of_byte(
            content,
            i,
        ) by {
            assert(shorter =~= content.take(n - 1));
            lemma_newlines_of_prefix(content, n - 1, i);
        }
        if line_of_byte(content, n - 1) < line {
            assert forall|i: int| 0 <= i < n implies #[trigger] line_of_byte(content, i) < line by {
                lemma_lines_ascend(content, i, n - 1);
            }
        }
    }
}

/// Removal is one cut. What `remove_lines` leaves is the content up to the
/// first byte of line `first`, followed by the content from the first byte
/// after line `last`: the bytes before and after the span stay as they are,
/// in their order.
pub proof fn lemma_removal_is_one_cut(content: Seq<u8>, first: int, last: int)
    ensures
        ({
            let from = offset_of_line(content, first);
            let to = offset_of_line(content, last + 1);
            without_lines(content, first, last) == content.take(from) + content.skip(
                if to < from {
                    from
                } else {
                    to
                },
            )
        }),
    decreases content.len(),
{
    let from = offset_of_line(content, first);
    let to = offset_of_line(content, last + 1);
    let resume = if to < from {
        from
    } else {
        to
    };
    lemma_offset_of_line_parts(content, first);
    lemma_offset_of_line_parts(content, last + 1);
    if content.len() == 0 {
        assert(without_lines(content, first, last) =~= content.take(from) + content.skip(resume));
    } else {
        let n = content.len() as int;
        let shorter = content.drop_last();
        let line = line_of_byte(content, n - 1);
        lemma_removal_is_one_cut(shorter, first, last);
        lemma_offset_of_line_parts(shorter, first);
        lemma_offset_of_line_parts(shorter, last + 1);
        let from_before = offset_of_line(shorter, first);
        let to_before = offset_of_line(shorter, last + 1);
        let resume_before = if to_before < from_before {
            from_before
        } else {
            to_before
        };
        assert(shorter =~= content.take(n - 1));
        if n > 1 {
            lemma_newlines_of_prefix(content, n - 1, n - 2);
            lemma_lines_ascend(content, n - 2, n - 1);
        }
        if line < first {
            assert(from_before == n - 1);
            assert(shorter.take(from_before) + shorter.skip(resume_before) =~= shorter);
            assert(shorter.push(content[n - 1]) =~= content.take(from) + content.skip(resume));
        } else if line <= last {
            assert(to_before == n - 1);
            assert(shorter.take(from_before) + shorter.skip(resume_before) =~= content.take(from)
                + content.skip(resume));
        } else {
            assert((shorter.take(from_before) + shorter.skip(resume_before)).push(content[n - 1])
                =~= content.take(from) + content.skip(resume));
        }
    }
}

} // verus!
