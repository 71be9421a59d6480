//! The multimap from the `multimap` crate, holding lists of file paths by
//! identifier.

use multimap::MultiMap;
use vstd::prelude::*;

verus! {

/// `multimap::MultiMap`: a map from keys to lists of values.
#[verifier::external_type_specification]
#[verifier::external_body]
#[verifier::reject_recursive_types(K)]
#[verifier::reject_recursive_types(V)]
#[verifier::reject_recursive_types(S)]
pub struct ExMultiMap<K, V, S>(MultiMap<K, V, S>);

/// What a multimap holds: for each key that has values, its values in the
/// order in which they were inserted.
pub uninterp spec fn multimap_entries(map: MultiMap<String, String>) -> Map<
    Seq<char>,
    Seq<Seq<char>>,
>;

/// The values of `key` after `value` has been inserted under it.
pub open spec fn values_with(
    entries: Map<Seq<char>, Seq<Seq<char>>>,
    key: Seq<char>,
    value: Seq<char>,
) -> Seq<Seq<char>> {
    if entries.contains_key(key) {
        entries[key].push(value)
    } else {
        seq![value]
    }
}

/// `MultiMap::new`: a multimap without keys.
#[verifier::external_body]
pub(crate) fn new_multimap() -> (map: MultiMap<String, String>)
    ensures
        multimap_entries(map) == (Map::<Seq<char>, Seq<Seq<char>>>::empty()),
{
    MultiMap::new()
}

/// `MultiMap::insert`: the value goes to the end of the key's values, or
/// becomes the only value of a key that had none.
#[verifier::external_body]
pub(crate) fn insert(map: &mut MultiMap<String, String>, key: String, value: String)
    ensures
        multimap_entries(*final(map)) == multimap_entries(*old(map)).insert(
            key@,
            values_with(multimap_entries(*old(map)), key@, value@),
        ),
{
    map.insert(key, value)
}

/// `MultiMap::get_vec`: the values of a key, if it has any.
#[verifier::external_body]
pub(crate) fn get_vec<'a>(map: &'a MultiMap<String, String>, key: &str) -> (values: Option<
    &'a Vec<String>,
>)
    ensures
        values is Some <==> multimap_entries(*map).contains_key(key@),
        values matches Some(listed) ==> listed.deep_view() == multimap_entries(*map)[key@],
{
    map.get_vec(key)
}

} // verus!
