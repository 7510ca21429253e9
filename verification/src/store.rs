//! The hash table that holds a number for each word.
use vstd::prelude::*;
use ahash::AHashMap;
use ahash::RandomState;

verus! {

#[verifier::external_type_specification]
#[verifier::external_body]
#[verifier::reject_recursive_types(K)]
#[verifier::reject_recursive_types(V)]
#[verifier::reject_recursive_types(S)]
pub struct ExAHashMap<K, V, S>(AHashMap<K, V, S>);

#[verifier::external_type_specification]
#[verifier::external_body]
pub struct ExRandomState(RandomState);

/// What a table holds: the number stored for each word that has one.
pub uninterp spec fn table_entries(m: AHashMap<String, u64>) -> Map<Seq<char>, u64>;

/// `pairs` lists each entry of `m` once, and nothing else.
pub open spec fn lists_entries(pairs: Seq<(String, u64)>, m: Map<Seq<char>, u64>) -> bool {
    &&& forall|i: int|
        0 <= i < pairs.len() ==> m.contains_key(#[trigger] pairs[i].0@) && m[pairs[i].0@]
            == pairs[i].1
    &&& forall|i: int, j: int|
        0 <= i < j < pairs.len() ==> #[trigger] pairs[i].0@ != #[trigger] pairs[j].0@
    &&& forall|w: Seq<char>|
        m.contains_key(w) ==> exists|i: int| 0 <= i < pairs.len() && #[trigger] pairs[i].0@ == w
}

/// The table without entries.
pub open spec fn no_entries() -> Map<Seq<char>, u64> {
    Map::empty()
}

/// `AHashMap::new`: a table without entries.
#[verifier::external_body]
pub(crate) fn table_new() -> (m: AHashMap<String, u64>)
    ensures
        table_entries(m) == no_entries(),
{
    AHashMap::new()
}

/// `AHashMap::insert`: the word gets the number, whether or not it had one;
/// the other entries stay.
#[verifier::external_body]
pub(crate) fn table_insert(m: &mut AHashMap<String, u64>, word: String, number: u64)
    ensures
        table_entries(*final(m)) == table_entries(*old(m)).insert(word@, number),
{
    m.insert(word, number);
}

/// `AHashMap::get`: the number stored for the word, if there is one.
#[verifier::external_body]
pub(crate) fn table_get(m: &AHashMap<String, u64>, word: &str) -> (r: Option<u64>)
    ensures
        r == (if table_entries(*m).contains_key(word@) {
            Some(table_entries(*m)[word@])
        } else {
            None
        }),
{
    m.get(word).copied()
}

/// `HashMap::iter`, reached through `AHashMap`'s `Deref`: every entry once, in
/// an order that is not fixed.
#[verifier::external_body]
pub(crate) fn table_pairs(m: &AHashMap<String, u64>) -> (r: Vec<(String, u64)>)
    ensures
        lists_entries(r@, table_entries(*m)),
{
    m.iter().map(|(word, number)| (word.clone(), *number)).collect()
}

} // verus!
