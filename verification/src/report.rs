//! What the commands report: the unused identifiers that may be reported,
//! their counts, and the files from which to remove them.

use crate::file_lists::{get_vec, multimap_entries};
use crate::index::{
    defined_ids, file_lists, lemma_mentions_grows, mentions_so_far, unused_ids, used_ids, Fact,
    FileView, ResourceIndex,
};
use crate::text::{ascending, clone_strings, contains, occurs_in, sort, starts_with};
use crate::extract::{NAME_ATTRIBUTE, STRING_ELEMENT};
use crate::xeditor::{ElementMatcher, MatcherView};
use vstd::hash_set::StringHashSet;
use vstd::prelude::*;

verus! {

/// The mark of an emoji variant. Identifiers that hold one of the three marks
/// are referenced by computed names, which no scan sees, and are kept out of
/// the reports.
pub const EMOJI_VARIANT: &'static str = "emoji";

/// The mark of a variant for women.
pub const FEMALE_VARIANT: &'static str = "f1gender";

/// The mark of a variant for men.
pub const MALE_VARIANT: &'static str = "m2gender";

/// The words that keep an identifier out of the reports.
pub open spec fn denied_words() -> Seq<Seq<char>> {
    seq![EMOJI_VARIANT@, FEMALE_VARIANT@, MALE_VARIANT@]
}

/// Whether an identifier holds one of the words.
pub open spec fn holds_one_of(words: Seq<Seq<char>>, id: Seq<char>) -> bool {
    exists|k: int| 0 <= k < words.len() && occurs_in(#[trigger] words[k], id)
}

/// Whether an identifier is kept out of the reports.
pub open spec fn is_denied(id: Seq<char>) -> bool {
    holds_one_of(denied_words(), id)
}

/// The unused identifiers that hold none of the words.
pub open spec fn unused_without(files: Seq<FileView>, words: Seq<Seq<char>>) -> Set<
    Seq<char>,
> {
    Set::new(|id: Seq<char>| unused_ids(files).contains(id) && !holds_one_of(words, id))
}

/// The unused identifiers that may be reported.
pub open spec fn reportable_unused(files: Seq<FileView>) -> Set<Seq<char>> {
    unused_without(files, denied_words())
}

/// The words that keep an identifier out of the reports.
pub fn denylist() -> (words: Vec<String>)
    ensures
        words.deep_view() == denied_words(),
{
    let mut words: Vec<String> = Vec::new();
    words.push(EMOJI_VARIANT.to_owned());
    words.push(FEMALE_VARIANT.to_owned());
    words.push(MALE_VARIANT.to_owned());
    assert(words.deep_view() =~= denied_words());
    words
}

fn denied(words: &Vec<String>, id: &str) -> (kept_out: bool)
    ensures
        kept_out == holds_one_of(words.deep_view(), id@),
{
    let mut k: usize = 0;
    while k < words.len()
        invariant
            k <= words.len(),
            forall|j: int| 0 <= j < k ==> !occurs_in(#[trigger] words.deep_view()[j], id@),
        decreases words.len() - k,
    {
        assert(words.deep_view()[k as int] == words[k as int]@);
        if contains(id, words[k].as_str()) {
            return true;
        }
        k += 1;
    }
    false
}

/// Sorting keeps the strings: the same ones occur, and none twice if none
/// did before.
proof fn lemma_same_strings(before: Seq<Seq<char>>, after: Seq<Seq<char>>)
    requires
        before.to_multiset() == after.to_multiset(),
    ensures
        before.to_set() == after.to_set(),
        before.no_duplicates() ==> after.no_duplicates(),
{
    before.to_multiset_ensures();
    after.to_multiset_ensures();
    assert forall|one: Seq<char>| before.contains(one) <==> after.contains(one) by {
        assert(before.contains(one) <==> before.to_multiset().count(one) > 0);
        assert(after.contains(one) <==> after.to_multiset().count(one) > 0);
    }
    assert(before.to_set() =~= after.to_set());
    if before.no_duplicates() {
        before.lemma_multiset_has_no_duplicates();
        after.lemma_multiset_has_no_duplicates_conv();
    }
}

/// Whether a build of the report that has taken in `files` and, of one more
/// file, the declarations `ids`, has come upon `id` as one to report.
pub open spec fn reportable_so_far(
    files: Seq<FileView>,
    ids: Seq<Seq<char>>,
    used: Set<Seq<char>>,
    words: Seq<Seq<char>>,
    id: Seq<char>,
) -> bool {
    mentions_so_far(files, Fact::Definition, ids, id) && !used.contains(id) && !holds_one_of(
        words,
        id,
    )
}

proof fn lemma_push_to_set(strings: Seq<Seq<char>>, one: Seq<char>)
    ensures
        strings.push(one).to_set() == strings.to_set().insert(one),
        !strings.contains(one) && strings.no_duplicates() ==> strings.push(one).no_duplicates(),
{
    let more = strings.push(one);
    assert forall|other: Seq<char>| #[trigger]
        more.contains(other) <==> strings.contains(other) || other == one by {
        if strings.contains(other) {
            let k = choose|k: int| 0 <= k < strings.len() && strings[k] == other;
            assert(more[k] == other);
        }
        assert(more[strings.len() as int] == one);
    }
    assert(more.to_set() =~= strings.to_set().insert(one));
}

proof fn lemma_one_more_id(
    files: Seq<FileView>,
    taken: Seq<Seq<char>>,
    one: Seq<char>,
    used: Set<Seq<char>>,
    words: Seq<Seq<char>>,
    id: Seq<char>,
)
    ensures
        reportable_so_far(files, taken.push(one), used, words, id) <==> reportable_so_far(
            files,
            taken,
            used,
            words,
            id,
        ) || (id == one && !used.contains(one) && !holds_one_of(words, one)),
{
    let more = taken.push(one);
    if taken.contains(id) {
        let k = choose|k: int| 0 <= k < taken.len() && taken[k] == id;
        assert(more[k] == id);
    }
    if more.contains(id) && id != one {
        let k = choose|k: int| 0 <= k < more.len() && more[k] == id;
        assert(taken[k] == id);
    }
    assert(more[taken.len() as int] == one);
}

/// The unused identifiers that hold none of the given words, each once, in
/// ascending order.
pub fn unused_strings_without(index: &ResourceIndex, words: &Vec<String>) -> (unused: Vec<String>)
    ensures
        unused.deep_view().to_set() == unused_without(index@, words.deep_view()),
        unused.deep_view().no_duplicates(),
        ascending(unused.deep_view()),
{
    let ghost denied_by = words.deep_view();
    let used = index.used_strings();
    let files = index.files();
    let mut seen = StringHashSet::new();
    let mut unused: Vec<String> = Vec::new();
    let mut i: usize = 0;
    proof {
        assert(unused.deep_view().to_set() =~= seen@);
        assert(seen@ =~= Set::new(
            |id: Seq<char>| reportable_so_far(index@.take(0), Seq::empty(), used@, denied_by, id),
        ));
    }
    while i < files.len()
        invariant
            i <= files.len(),
            files.deep_view() == index@,
            used@ == used_ids(index@),
            denied_by == words.deep_view(),
            unused.deep_view().no_duplicates(),
            unused.deep_view().to_set() == seen@,
            seen@ == Set::new(
                |id: Seq<char>|
                    reportable_so_far(index@.take(i as int), Seq::empty(), used@, denied_by, id),
            ),
        decreases files.len() - i,
    {
        let ids = &files[i].string_definitions;
        let ghost before = index@.take(i as int);
        let mut j: usize = 0;
        assert(ids.deep_view().take(0) =~= Seq::<Seq<char>>::empty());
        assert(ids.deep_view() == index@[i as int].ids(Fact::Definition));
        while j < ids.len()
            invariant
                j <= ids.len(),
                denied_by == words.deep_view(),
                unused.deep_view().no_duplicates(),
                unused.deep_view().to_set() == seen@,
                seen@ == Set::new(
                    |id: Seq<char>|
                        reportable_so_far(
                            before,
                            ids.deep_view().take(j as int),
                            used@,
                            denied_by,
                            id,
                        ),
                ),
            decreases ids.len() - j,
        {
            let id = &ids[j];
            let ghost listed = unused.deep_view();
            let ghost held = seen@;
            let ghost taken = ids.deep_view().take(j as int);
            let ghost more = ids.deep_view().take(j + 1);
            if !used.contains(id.as_str()) && !seen.contains(id.as_str()) && !denied(
                words,
                id.as_str(),
            ) {
                seen.insert(id.clone());
                unused.push(id.clone());
                proof {
                    assert(unused.deep_view() =~= listed.push(id@));
                    assert(!listed.contains(id@)) by {
                        assert(!listed.to_set().contains(id@));
                    }
                    lemma_push_to_set(listed, id@);
                }
            }
            proof {
                assert(more =~= taken.push(id@));
                assert forall|other: Seq<char>|
                    seen@.contains(other) <==> #[trigger] reportable_so_far(
                        before,
                        more,
                        used@,
                        denied_by,
                        other,
                    ) by {
                    lemma_one_more_id(before, taken, id@, used@, denied_by, other);
                    assert(held.contains(other) <==> reportable_so_far(
                        before,
                        taken,
                        used@,
                        denied_by,
                        other,
                    ));
                }
                assert(seen@ =~= Set::new(
                    |other: Seq<char>| reportable_so_far(before, more, used@, denied_by, other),
                ));
            }
            j += 1;
        }
        proof {
            assert(ids.deep_view().take(j as int) =~= ids.deep_view());
            assert forall|id: Seq<char>|
                seen@.contains(id) <==> #[trigger] reportable_so_far(
                    index@.take(i + 1),
                    Seq::empty(),
                    used@,
                    denied_by,
                    id,
                ) by {
                lemma_mentions_grows(index@, i as int, Fact::Definition, id);
                assert(seen@.contains(id) <==> reportable_so_far(
                    before,
                    ids.deep_view(),
                    used@,
                    denied_by,
                    id,
                ));
                assert(!Seq::<Seq<char>>::empty().contains(id));
            }
            assert(seen@ =~= Set::new(
                |id: Seq<char>|
                    reportable_so_far(index@.take(i + 1), Seq::empty(), used@, denied_by, id),
            ));
        }
        i += 1;
    }
    proof {
        assert(index@.take(i as int) =~= index@);
        assert forall|id: Seq<char>|
            seen@.contains(id) <==> #[trigger] unused_without(index@, denied_by).contains(id) by {
            assert(seen@.contains(id) <==> reportable_so_far(
                index@,
                Seq::empty(),
                used@,
                denied_by,
                id,
            ));
            assert(!Seq::<Seq<char>>::empty().contains(id));
        }
        assert(unused.deep_view().to_set() =~= unused_without(index@, denied_by));
    }
    let ghost found = unused.deep_view();
    sort(&mut unused);
    proof {
        lemma_same_strings(found, unused.deep_view());
    }
    unused
}

/// The unused identifiers that may be reported, each once, in ascending
/// order.
pub fn filtered_unused_strings(index: &ResourceIndex) -> (unused: Vec<String>)
    ensures
        unused.deep_view().to_set() == reportable_unused(index@),
        unused.deep_view().no_duplicates(),
        ascending(unused.deep_view()),
{
    let words = denylist();
    unused_strings_without(index, &words)
}

/// How many identifiers are defined, used, and reportably unused.
#[derive(Debug, Clone, Copy, PartialEq, Eq, Structural)]
pub struct Counts {
    pub defined: usize,
    pub used: usize,
    pub unused: usize,
}

/// The three counts of an index.
pub fn counts(index: &ResourceIndex) -> (counted: Counts)
    ensures
        counted.defined == defined_ids(index@).len(),
        counted.used == used_ids(index@).len(),
        counted.unused == reportable_unused(index@).len(),
{
    let unused = filtered_unused_strings(index);
    proof {
        unused.deep_view().unique_seq_to_set();
    }
    Counts {
        defined: index.defined_strings().len(),
        used: index.used_strings().len(),
        unused: unused.len(),
    }
}

/// An identifier and the files that declare it.
pub struct Declared {
    pub id: String,
    pub files: Vec<String>,
}

/// An identifier and its files as the contracts see them.
pub struct DeclaredView {
    pub id: Seq<char>,
    pub files: Seq<Seq<char>>,
}

impl View for Declared {
    type V = DeclaredView;

    open spec fn view(&self) -> DeclaredView {
        DeclaredView { id: self.id@, files: self.files.deep_view() }
    }
}

impl DeepView for Declared {
    type V = DeclaredView;

    open spec fn deep_view(&self) -> DeclaredView {
        self@
    }
}

/// Of `ids`, in their order, those that begin with `prefix`, each with the
/// files that `lists` holds for it.
pub open spec fn declared_among(
    ids: Seq<Seq<char>>,
    prefix: Seq<char>,
    lists: Map<Seq<char>, Seq<Seq<char>>>,
) -> Seq<DeclaredView>
    decreases ids.len(),
{
    if ids.len() == 0 {
        Seq::empty()
    } else {
        let id = ids.last();
        declared_among(ids.drop_last(), prefix, lists) + if prefix.is_prefix_of(id) {
            seq![
                DeclaredView {
                    id,
                    files: if lists.contains_key(id) {
                        lists[id]
                    } else {
                        Seq::empty()
                    },
                },
            ]
        } else {
            Seq::empty()
        }
    }
}

/// The identifiers among `ids` that begin with `prefix`, each with the files
/// that declare it: what a listing shows, and where a removal has to go.
pub fn declaring_files(index: &ResourceIndex, ids: &Vec<String>, prefix: &str) -> (declared: Vec<
    Declared,
>)
    ensures
        declared.deep_view() == declared_among(
            ids.deep_view(),
            prefix@,
            file_lists(index@, Fact::Definition),
        ),
{
    let lists = index.files_for_definition();
    let ghost held = multimap_entries(lists);
    let ghost all = ids.deep_view();
    let mut declared: Vec<Declared> = Vec::new();
    let mut i: usize = 0;
    assert(declared.deep_view() =~= declared_among(all.take(0), prefix@, held));
    while i < ids.len()
        invariant
            i <= ids.len(),
            all == ids.deep_view(),
            held == multimap_entries(lists),
            declared.deep_view() == declared_among(all.take(i as int), prefix@, held),
        decreases ids.len() - i,
    {
        let id = &ids[i];
        let ghost before = declared.deep_view();
        proof {
            assert(all.take(i + 1).drop_last() =~= all.take(i as int));
            assert(all.take(i + 1).last() == id@);
        }
        if starts_with(id.as_str(), prefix) {
            let files = match get_vec(&lists, id.as_str()) {
                Some(files) => clone_strings(files),
                None => Vec::new(),
            };
            let entry = Declared { id: id.clone(), files };
            assert(entry.files.deep_view() =~= if held.contains_key(id@) {
                held[id@]
            } else {
                Seq::empty()
            });
            declared.push(entry);
            assert(declared.deep_view() =~= before.push(entry@));
            assert(declared.deep_view() =~= declared_among(all.take(i + 1), prefix@, held));
        } else {
            assert(declared.deep_view() =~= declared_among(all.take(i + 1), prefix@, held));
        }
        i += 1;
    }
    assert(all.take(i as int) =~= all);
    declared
}

/// A matcher for the `string` element that declares `id`.
pub open spec fn removes_string(matcher: MatcherView, id: Seq<char>) -> bool {
    &&& matcher.local_name == STRING_ELEMENT@
    &&& matcher.required.contains_key(NAME_ATTRIBUTE@)
    &&& matcher.required[NAME_ATTRIBUTE@] == id
}

/// The matcher with which an unused identifier is removed from a file that
/// declares it: a `string` element whose `name` is the identifier, and
/// nothing demanded of any other attribute.
pub fn string_matcher(id: &str) -> (matcher: ElementMatcher)
    ensures
        removes_string(matcher@, id@),
        matcher@.required.dom() == set![NAME_ATTRIBUTE@],
{
    let mut matcher = ElementMatcher::for_local_name(STRING_ELEMENT);
    matcher.attr(NAME_ATTRIBUTE, id);
    assert(matcher@.required.dom() =~= set![NAME_ATTRIBUTE@]);
    matcher
}

/// The sets that a report can be asked for.
#[derive(Debug, Clone, Copy, PartialEq, Eq, Structural)]
pub enum Kind {
    Defined,
    Used,
    Unused,
}

/// A word that names no kind.
#[derive(Debug, Clone, Copy, PartialEq, Eq, Structural)]
pub struct UnrecognizedKind;

/// The name of the defined identifiers.
pub const DEFINED_KIND: &'static str = "defined";

/// The name of the used identifiers.
pub const USED_KIND: &'static str = "used";

/// The name of the unused identifiers.
pub const UNUSED_KIND: &'static str = "unused";

/// The kind that a word names.
pub open spec fn kind_named(value: Seq<char>) -> Result<Kind, UnrecognizedKind> {
    if value == DEFINED_KIND@ {
        Ok(Kind::Defined)
    } else if value == USED_KIND@ {
        Ok(Kind::Used)
    } else if value == UNUSED_KIND@ {
        Ok(Kind::Unused)
    } else {
        Err(UnrecognizedKind)
    }
}

impl Kind {
    /// Reads a kind from its name.
    pub fn from_str(value: &str) -> (kind: Result<Kind, UnrecognizedKind>)
        ensures
            kind == kind_named(value@),
    {
        let word = value.to_owned();
        if word == DEFINED_KIND.to_owned() {
            Ok(Kind::Defined)
        } else if word == USED_KIND.to_owned() {
            Ok(Kind::Used)
        } else if word == UNUSED_KIND.to_owned() {
            Ok(Kind::Unused)
        } else {
            Err(UnrecognizedKind)
        }
    }
}

} // verus!
