//! The hash map from a trigram to the list of entries whose name holds it.

use ahash::AHashMap;
use vstd::prelude::*;

verus! {

/// The hasher state inside an `ahash::AHashMap`, which nothing here looks into.
#[verifier::external_type_specification]
#[verifier::external_body]
pub struct ExRandomState(ahash::RandomState);

/// The hash map of the `ahash` crate, known by the contents that the names below give it.
#[verifier::external_type_specification]
#[verifier::external_body]
#[verifier::reject_recursive_types(K)]
#[verifier::reject_recursive_types(V)]
#[verifier::reject_recursive_types(S)]
pub struct ExAHashMap<K, V, S>(ahash::AHashMap<K, V, S>);

/// The list that a posting map holds under each of its keys.
pub uninterp spec fn posting_lists(m: AHashMap<u32, Vec<u32>>) -> Map<u32, Seq<u32>>;

/// The list under `key`, empty where there is none.
pub open spec fn list_at(lists: Map<u32, Seq<u32>>, key: u32) -> Seq<u32> {
    if lists.contains_key(key) {
        lists[key]
    } else {
        Seq::empty()
    }
}

/// `keys` names every key of the map once.
pub open spec fn lists_keys(keys: Seq<u32>, lists: Map<u32, Seq<u32>>) -> bool {
    &&& keys.no_duplicates()
    &&& forall|k: u32| #[trigger] keys.contains(k) <==> lists.contains_key(k)
}

/// `pairs` holds every key of the map once, each with its list.
pub open spec fn lists_pairs(pairs: Seq<(u32, Vec<u32>)>, lists: Map<u32, Seq<u32>>) -> bool {
    &&& forall|i: int|
        0 <= i < pairs.len() ==> lists.contains_key((#[trigger] pairs[i]).0)
            && lists[pairs[i].0] == pairs[i].1@
    &&& forall|i: int, j: int|
        0 <= i < j < pairs.len() ==> (#[trigger] pairs[i]).0 != (#[trigger] pairs[j]).0
    &&& forall|k: u32| #[trigger]
        lists.contains_key(k) ==> exists|i: int| 0 <= i < pairs.len() && (#[trigger] pairs[i]).0 == k
}

/// `AHashMap::with_capacity`: the new map holds nothing. The bound keeps the table well below the
/// size at which it cannot be laid out.
#[verifier::external_body]
pub(crate) fn new_posting_map(capacity: usize) -> (m: AHashMap<u32, Vec<u32>>)
    requires
        capacity <= 0x10000,
    ensures
        posting_lists(m) == (Map::<u32, Seq<u32>>::empty()),
{
    AHashMap::with_capacity(capacity)
}

/// `entry` followed by `or_default`: lends the list under `key`, putting an empty one there first
/// where the key was missing. Whatever becomes of the lent list is then the list under `key`, and
/// no other list changes.
#[verifier::external_body]
pub(crate) fn posting_list_mut(m: &mut AHashMap<u32, Vec<u32>>, key: u32) -> (list: &mut Vec<u32>)
    ensures
        list@ == list_at(posting_lists(*old(m)), key),
        posting_lists(*final(m)) == posting_lists(*old(m)).insert(key, final(list)@),
{
    m.entry(key).or_default()
}

/// `AHashMap::get`: the list under `key`, or nothing where the key is missing.
#[verifier::external_body]
pub(crate) fn posting_list(m: &AHashMap<u32, Vec<u32>>, key: u32) -> (list: Option<&Vec<u32>>)
    ensures
        match list {
            Some(l) => posting_lists(*m).contains_key(key) && l@ == posting_lists(*m)[key],
            None => !posting_lists(*m).contains_key(key),
        },
{
    m.get(&key)
}

/// `keys`: every key of the map once, in an order that is left open.
#[verifier::external_body]
pub(crate) fn posting_keys(m: &AHashMap<u32, Vec<u32>>) -> (keys: Vec<u32>)
    ensures
        lists_keys(keys@, posting_lists(*m)),
{
    m.keys().copied().collect()
}

/// `into_iter`: every key of the map once, with its list, in an order that is left open.
#[verifier::external_body]
pub(crate) fn into_posting_pairs(m: AHashMap<u32, Vec<u32>>) -> (pairs: Vec<(u32, Vec<u32>)>)
    ensures
        lists_pairs(pairs@, posting_lists(m)),
{
    m.into_iter().collect()
}

} // verus!
