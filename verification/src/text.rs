//! Tests and orders on strings that the standard library computes.

use vstd::prelude::*;

verus! {

/// `needle` stands somewhere in `text` as a run of consecutive characters.
pub open spec fn occurs_in(needle: Seq<char>, text: Seq<char>) -> bool {
    exists|at: int|
        0 <= at && at + needle.len() <= text.len() && #[trigger] text.subrange(
            at,
            at + needle.len(),
        ) == needle
}

/// The order of strings by the code points of their characters, the first
/// difference deciding; a string comes before every longer one that it begins.
pub open spec fn lex_le(a: Seq<char>, b: Seq<char>) -> bool
    decreases a.len(),
{
    if a.len() == 0 {
        true
    } else if b.len() == 0 {
        false
    } else if a[0] != b[0] {
        (a[0] as u32) < (b[0] as u32)
    } else {
        lex_le(a.drop_first(), b.drop_first())
    }
}

/// Every string is followed by strings that are not before it.
pub open spec fn ascending(strings: Seq<Seq<char>>) -> bool {
    forall|i: int, j: int| 0 <= i < j < strings.len() ==> lex_le(strings[i], strings[j])
}

/// `str::contains` with a string pattern: whether the pattern matches a
/// sub-slice of the text.
#[verifier::external_body]
pub(crate) fn contains(text: &str, needle: &str) -> (found: bool)
    ensures
        found == occurs_in(needle@, text@),
{
    text.contains(needle)
}

/// `str::starts_with` with a string pattern: whether the pattern matches a
/// prefix of the text.
#[verifier::external_body]
pub(crate) fn starts_with(text: &str, prefix: &str) -> (found: bool)
    ensures
        found == prefix@.is_prefix_of(text@),
{
    text.starts_with(prefix)
}

/// `slice::sort` on strings: the same strings, in the order of `Ord` for
/// `String`, which compares byte by byte and so by code points.
#[verifier::external_body]
pub(crate) fn sort(strings: &mut Vec<String>)
    ensures
        ascending(final(strings).deep_view()),
        final(strings).deep_view().to_multiset() == old(strings).deep_view().to_multiset(),
{
    strings.sort()
}

/// A copy of a list of strings.
pub fn clone_strings(strings: &Vec<String>) -> (copy: Vec<String>)
    ensures
        copy.deep_view() == strings.deep_view(),
{
    let mut copy: Vec<String> = Vec::new();
    let mut i: usize = 0;
    while i < strings.len()
        invariant
            i <= strings.len(),
            copy.deep_view() == strings.deep_view().take(i as int),
        decreases strings.len() - i,
    {
        let ghost before = copy.deep_view();
        copy.push(strings[i].clone());
        assert(copy.deep_view() =~= before.push(strings[i as int]@));
        assert(strings.deep_view().take(i + 1) =~= strings.deep_view().take(i as int).push(
            strings[i as int]@,
        ));
        i += 1;
    }
    assert(strings.deep_view().take(i as int) =~= strings.deep_view());
    copy
}

/// Two strings that are not before each other are one string.
pub proof fn lemma_lex_le_antisymmetric(a: Seq<char>, b: Seq<char>)
    requires
        lex_le(a, b),
        lex_le(b, a),
    ensures
        a == b,
    decreases a.len(),
{
    if a.len() == 0 || b.len() == 0 {
        assert(a =~= b);
    } else {
        lemma_lex_le_antisymmetric(a.drop_first(), b.drop_first());
        assert(a =~= seq![a[0]] + a.drop_first());
        assert(b =~= seq![b[0]] + b.drop_first());
    }
}

/// An ascending list without repeats is the only one of its strings: two
/// such lists of the same strings are equal.
pub proof fn lemma_ascending_list_is_unique(a: Seq<Seq<char>>, b: Seq<Seq<char>>)
    requires
        ascending(a),
        ascending(b),
        a.no_duplicates(),
        b.no_duplicates(),
        a.to_set() == b.to_set(),
    ensures
        a == b,
    decreases a.len(),
{
    a.unique_seq_to_set();
    b.unique_seq_to_set();
    if a.len() > 0 {
        assert(a.to_set().contains(a[0]));
        assert(b.to_set().contains(b[0]));
        let j = choose|j: int| 0 <= j < b.len() && b[j] == a[0];
        let i = choose|i: int| 0 <= i < a.len() && a[i] == b[0];
        if i > 0 && j > 0 {
            lemma_lex_le_antisymmetric(a[0], b[0]);
        }
        let rest_a = a.drop_first();
        let rest_b = b.drop_first();
        assert forall|one: Seq<char>| rest_a.contains(one) <==> rest_b.contains(one) by {
            if rest_a.contains(one) {
                let k = choose|k: int| 0 <= k < rest_a.len() && rest_a[k] == one;
                assert(a[k + 1] == one);
                assert(b.to_set().contains(one));
                let m = choose|m: int| 0 <= m < b.len() && b[m] == one;
                assert(rest_b[m - 1] == one);
            }
            if rest_b.contains(one) {
                let k = choose|k: int| 0 <= k < rest_b.len() && rest_b[k] == one;
                assert(b[k + 1] == one);
                assert(a.to_set().contains(one));
                let m = choose|m: int| 0 <= m < a.len() && a[m] == one;
                assert(rest_a[m - 1] == one);
            }
        }
        assert(rest_a.to_set() =~= rest_b.to_set());
        assert forall|x: int, y: int| 0 <= x < y < rest_a.len() implies lex_le(
            rest_a[x],
            rest_a[y],
        ) by {
            assert(lex_le(a[x + 1], a[y + 1]));
        }
        assert forall|x: int, y: int| 0 <= x < y < rest_b.len() implies lex_le(
            rest_b[x],
            rest_b[y],
        ) by {
            assert(lex_le(b[x + 1], b[y + 1]));
        }
        lemma_ascending_list_is_unique(rest_a, rest_b);
        assert(a =~= seq![a[0]] + rest_a);
        assert(b =~= seq![b[0]] + rest_b);
    } else {
        assert(a =~= b);
    }
}

} // verus!
