//! The hash map from a file name extension to the list of files that have it.

use ahash::AHashMap;
use vstd::prelude::*;

verus! {

/// The list that an extension map holds under each of its keys.
pub uninterp spec fn extension_lists(m: AHashMap<Box<[u8]>, Vec<u32>>) -> Map<Seq<u8>, Seq<u32>>;

/// The list under `ext`, empty where there is none.
pub open spec fn ids_at(lists: Map<Seq<u8>, Seq<u32>>, ext: Seq<u8>) -> Seq<u32> {
    if lists.contains_key(ext) {
        lists[ext]
    } else {
        Seq::empty()
    }
}

/// `keys` names every key of the map once.
pub open spec fn lists_extensions(
    keys: Seq<Vec<u8>>,
    lists: Map<Seq<u8>, Seq<u32>>,
) -> bool {
    &&& forall|i: int| 0 <= i < keys.len() ==> lists.contains_key((#[trigger] keys[i])@)
    &&& forall|i: int, j: int|
        0 <= i < j < keys.len() ==> (#[trigger] keys[i])@ != (#[trigger] keys[j])@
    &&& forall|k: Seq<u8>| #[trigger]
        lists.contains_key(k) ==> exists|i: int| 0 <= i < keys.len() && (#[trigger] keys[i])@ == k
}

/// `AHashMap::with_capacity`: the new map holds nothing. The bound keeps the table well below the
/// size at which it cannot be laid out.
#[verifier::external_body]
pub(crate) fn new_extension_map(capacity: usize) -> (m: AHashMap<Box<[u8]>, Vec<u32>>)
    requires
        capacity <= 0x10000,
    ensures
        extension_lists(m) == (Map::<Seq<u8>, Seq<u32>>::empty()),
{
    AHashMap::with_capacity(capacity)
}

/// `entry` followed by `or_default`: lends the list under `ext`, putting an empty one there first
/// where the key was missing. Whatever becomes of the lent list is then the list under `ext`, and
/// no other list changes.
#[verifier::external_body]
pub(crate) fn extension_list_mut<'a>(
    m: &'a mut AHashMap<Box<[u8]>, Vec<u32>>,
    ext: &[u8],
) -> (list: &'a mut Vec<u32>)
    ensures
        list@ == ids_at(extension_lists(*old(m)), ext@),
        extension_lists(*final(m)) == extension_lists(*old(m)).insert(ext@, final(list)@),
{
    m.entry(Box::from(ext)).or_default()
}

/// `AHashMap::get`: the list under `ext`, or nothing where the key is missing.
#[verifier::external_body]
pub(crate) fn extension_list<'a>(
    m: &'a AHashMap<Box<[u8]>, Vec<u32>>,
    ext: &[u8],
) -> (list: Option<&'a Vec<u32>>)
    ensures
        match list {
            Some(l) => extension_lists(*m).contains_key(ext@) && l@ == extension_lists(*m)[ext@],
            None => !extension_lists(*m).contains_key(ext@),
        },
{
    m.get(ext)
}

/// `keys`: every key of the map once, in an order that is left open.
#[verifier::external_body]
pub(crate) fn extension_keys(m: &AHashMap<Box<[u8]>, Vec<u32>>) -> (keys: Vec<Vec<u8>>)
    ensures
        lists_extensions(keys@, extension_lists(*m)),
{
    m.keys().map(|ext| ext.to_vec()).collect()
}

} // verus!
