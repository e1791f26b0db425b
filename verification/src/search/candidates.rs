//! What the lists of the index leave over for a query.

use crate::index::entry::marks_dir;
use crate::index::extension_map::{extension_list, extension_lists, ids_at};
use crate::index::posting_map::list_at;
use crate::index::store::Index;
use crate::index::trigram::{posted_under_all, trigrams};
use crate::search::engine::SearchEngine;
use crate::search::filters::{bytes_of, type_filters};
use crate::sorting::{
    find_sorted, intersect, lemma_merge_common_of_sorted, lemma_push_contains, merge_common,
    sort_dedup, strictly_ascending, Keyed,
};
use vstd::prelude::*;

verus! {

/// The entry stands under one of the wanted extensions in the extension map.
pub open spec fn listed_by_type(index: Index, types: Seq<Seq<u8>>, id: int) -> bool {
    &&& id <= u32::MAX
    &&& exists|k: int|
        0 <= k < types.len() && ids_at(
            extension_lists(index.ext_map),
            #[trigger] types[k],
        ).contains(id as u32)
}

/// What the lists of the index leave over for a query and wanted extensions: a query of three bytes
/// or more leaves the entries that stand under all of its trigrams, and wanted extensions leave the
/// entries listed under them and all directories.
pub open spec fn candidate(index: Index, query: Seq<u8>, types: Seq<Seq<u8>>, id: int) -> bool {
    &&& 0 <= id < index.entries@.len()
    &&& query.len() >= 3 ==> id <= u32::MAX && posted_under_all(index.trigram@, query, id as u32)
    &&& types.len() > 0 ==> marks_dir(index.entries@[id].flags) || listed_by_type(
        index,
        types,
        id,
    )
}

/// `ids` are the candidates, in ascending order.
pub open spec fn all_candidates(
    index: Index,
    query: Seq<u8>,
    types: Seq<Seq<u8>>,
    ids: Seq<usize>,
) -> bool {
    &&& strictly_ascending(ids)
    &&& forall|id: usize| #[trigger]
        ids.contains(id) <==> candidate(index, query, types, id as int)
}

/// What two ascending lists have in common.
pub fn intersect_sorted_usize(a: &[usize], b: &[usize]) -> (common: Vec<usize>)
    ensures
        common@ == merge_common(a@, b@),
        strictly_ascending(a@) && strictly_ascending(b@) ==> {
            &&& strictly_ascending(common@)
            &&& forall|x: usize| #[trigger]
                common@.contains(x) <==> a@.contains(x) && b@.contains(x)
        },
{
    proof {
        if strictly_ascending(a@) && strictly_ascending(b@) {
            lemma_merge_common_of_sorted(a@, b@);
        }
    }
    intersect(a, b)
}

/// Ids as positions.
fn widened(ids: &[u32]) -> (out: Vec<usize>)
    ensures
        out@.len() == ids@.len(),
        forall|i: int| 0 <= i < ids@.len() ==> #[trigger] out@[i] == ids@[i],
        forall|x: usize| #[trigger] out@.contains(x) <==> x <= u32::MAX && ids@.contains(x as u32),
{
    let mut out: Vec<usize> = Vec::with_capacity(ids.len());
    let mut i: usize = 0;
    while i < ids.len()
        invariant
            i <= ids@.len(),
            out@.len() == i,
            forall|j: int| 0 <= j < i ==> #[trigger] out@[j] == ids@[j],
        decreases ids@.len() - i,
    {
        out.push(ids[i] as usize);
        i += 1;
    }
    assert forall|x: usize| #[trigger] out@.contains(x) <==> x <= u32::MAX && ids@.contains(
        x as u32,
    ) by {
        if out@.contains(x) {
            let k = choose|k: int| 0 <= k < out@.len() && out@[k] == x;
            assert(ids@[k] == x as u32);
        }
        if x <= u32::MAX && ids@.contains(x as u32) {
            let k = choose|k: int| 0 <= k < ids@.len() && ids@[k] == x as u32;
            assert(out@[k] == x);
        }
    }
    out
}

/// The entries that stand under one of the wanted extensions, in the order of the extensions.
fn listed_ids(index: &Index, types: &[Vec<u8>]) -> (out: Vec<usize>)
    ensures
        forall|x: usize| #[trigger]
            out@.contains(x) <==> listed_by_type(*index, bytes_of(types@), x as int),
{
    let mut out: Vec<usize> = Vec::new();
    let ghost wanted = bytes_of(types@);
    let mut k: usize = 0;
    while k < types.len()
        invariant
            k <= types@.len(),
            wanted == bytes_of(types@),
            forall|x: usize| #[trigger]
                out@.contains(x) <==> listed_by_type(*index, wanted.take(k as int), x as int),
        decreases types@.len() - k,
    {
        let ghost before = out@;
        let ghost here = ids_at(extension_lists(index.ext_map), wanted[k as int]);
        if let Some(ids) = extension_list(&index.ext_map, types[k].as_slice()) {
            let mut more = widened(ids.as_slice());
            let ghost added = more@;
            out.append(&mut more);
            assert forall|x: usize| #[trigger] out@.contains(x) <==> before.contains(x) || (x
                <= u32::MAX && here.contains(x as u32)) by {
                lemma_joined_contains(before, added, x);
            }
        }
        proof {
            let old_types = wanted.take(k as int);
            let new_types = wanted.take(k + 1);
            assert forall|x: usize| #[trigger] out@.contains(x) <==> listed_by_type(
                *index,
                new_types,
                x as int,
            ) by {
                assert(before.contains(x) <==> listed_by_type(*index, old_types, x as int));
                if listed_by_type(*index, old_types, x as int) {
                    let j = choose|j: int|
                        0 <= j < old_types.len() && ids_at(
                            extension_lists(index.ext_map),
                            #[trigger] old_types[j],
                        ).contains(x as u32);
                    assert(new_types[j] == old_types[j]);
                }
                if x <= u32::MAX && here.contains(x as u32) {
                    assert(new_types[k as int] == wanted[k as int]);
                }
                if listed_by_type(*index, new_types, x as int) {
                    let j = choose|j: int|
                        0 <= j < new_types.len() && ids_at(
                            extension_lists(index.ext_map),
                            #[trigger] new_types[j],
                        ).contains(x as u32);
                    if j < k {
                        assert(old_types[j] == new_types[j]);
                    }
                }
            }
        }
        k += 1;
    }
    assert(wanted.take(k as int) =~= wanted);
    out
}

/// A joint list holds what either part holds.
proof fn lemma_joined_contains<T>(a: Seq<T>, b: Seq<T>, x: T)
    ensures
        (a + b).contains(x) <==> a.contains(x) || b.contains(x),
{
    if a.contains(x) {
        let i = choose|i: int| 0 <= i < a.len() && a[i] == x;
        assert((a + b)[i] == x);
    }
    if b.contains(x) {
        let i = choose|i: int| 0 <= i < b.len() && b[i] == x;
        assert((a + b)[a.len() + i] == x);
    }
    if (a + b).contains(x) {
        let i = choose|i: int| 0 <= i < (a + b).len() && (a + b)[i] == x;
        if i < a.len() {
            assert(a[i] == x);
        } else {
            assert(b[i - a.len()] == x);
        }
    }
}

impl SearchEngine {
    /// The entries among which the matches of a query are to be found, in ascending order.
    pub fn collect_candidates(index: &Index, q_bytes: &[u8], type_filters: &[Vec<u8>]) -> (ids: Vec<
        usize,
    >)
        requires
            index.well_formed(),
        ensures
            all_candidates(*index, q_bytes@, bytes_of(type_filters@), ids@),
    {
        let ghost types = bytes_of(type_filters@);
        let has_type_filter = type_filters.len() > 0;
        if let Some(trigram_candidates) = index.trigram.query(q_bytes) {
            let trigram_usize = widened(trigram_candidates.as_slice());
            proof {
                assert(strictly_ascending(trigram_usize@)) by {
                    let ids = trigram_candidates@;
                    assert forall|i: int, j: int| 0 <= i < j < ids.len() implies (
                    #[trigger] trigram_usize@[i]).key() < (#[trigger] trigram_usize@[j]).key() by {
                        assert(ids[i].key() < ids[j].key());
                    }
                }
                assert forall|x: usize| #[trigger] trigram_usize@.contains(x) implies x
                    < index.entries@.len() by {
                    assert(trigram_candidates@.contains(x as u32));
                    assert(posted_under_all(index.trigram@, q_bytes@, x as u32));
                    assert(list_at(index.trigram@, trigrams(q_bytes@)[0]).contains(x as u32));
                }
            }
            if has_type_filter {
                let mut ext_ids = listed_ids(index, type_filters);
                sort_dedup(&mut ext_ids);
                let mut result = intersect_sorted_usize(
                    trigram_usize.as_slice(),
                    ext_ids.as_slice(),
                );
                let ghost listed = result@;
                let mut i: usize = 0;
                while i < index.entries.len()
                    invariant
                        i <= index.entries@.len(),
                        strictly_ascending(trigram_usize@),
                        forall|x: usize| #[trigger]
                            result@.contains(x) <==> listed.contains(x) || (x < i && marks_dir(
                                index.entries@[x as int].flags,
                            ) && trigram_usize@.contains(x)),
                    decreases index.entries@.len() - i,
                {
                    let ghost before = result@;
                    if index.entries[i].is_dir() {
                        let place = find_sorted(trigram_usize.as_slice(), &i);
                        proof {
                            if place is None && trigram_usize@.contains(i) {
                                let k = choose|k: int|
                                    0 <= k < trigram_usize@.len() && trigram_usize@[k] == i;
                                assert(trigram_usize@[k].key() != i.key());
                            }
                        }
                        if place.is_some() {
                            assert(trigram_usize@.contains(i));
                            result.push(i);
                            assert forall|x: usize| #[trigger] result@.contains(x)
                                <==> before.contains(x) || x == i by {
                                lemma_push_contains(before, i, x);
                            }
                        }
                    }
                    i += 1;
                }
                sort_dedup(&mut result);
                result
            } else {
                trigram_usize
            }
        } else if has_type_filter {
            let mut ids = listed_ids(index, type_filters);
            let ghost listed = ids@;
            let mut i: usize = 0;
            while i < index.entries.len()
                invariant
                    i <= index.entries@.len(),
                    forall|x: usize| #[trigger]
                        ids@.contains(x) <==> listed.contains(x) || (x < i && marks_dir(
                            index.entries@[x as int].flags,
                        )),
                decreases index.entries@.len() - i,
            {
                let ghost before = ids@;
                if index.entries[i].is_dir() {
                    ids.push(i);
                    assert forall|x: usize| #[trigger] ids@.contains(x) <==> before.contains(x) || x
                        == i by {
                        lemma_push_contains(before, i, x);
                    }
                }
                i += 1;
            }
            sort_dedup(&mut ids);
            ids
        } else {
            let mut ids: Vec<usize> = Vec::with_capacity(index.entries.len());
            let mut i: usize = 0;
            while i < index.entries.len()
                invariant
                    i <= index.entries@.len(),
                    ids@.len() == i,
                    forall|j: int| 0 <= j < i ==> #[trigger] ids@[j] == j,
                decreases index.entries@.len() - i,
            {
                ids.push(i);
                i += 1;
            }
            assert forall|x: usize| #[trigger] ids@.contains(x) <==> candidate(
                *index,
                q_bytes@,
                types,
                x as int,
            ) by {
                if x < index.entries@.len() {
                    assert(ids@[x as int] == x);
                }
            }
            ids
        }
    }
}

} // verus!
