//! What holds of every search.

use crate::index::builder::{finished, items_fit, law_index_of_listed, Gathered, Listed};
use crate::index::entry::marks_dir;
use crate::index::extension_map::{extension_lists, ids_at};
use crate::index::posting_map::list_at;
use crate::index::store::{extension_of, indexed_extension, Index, Record};
use crate::index::trigram::{posted_under_all, trigrams};
use crate::search::candidates::candidate;
use crate::search::engine::{
    all_hits, all_shown, hit_of, hit_with_id, ranked_by, ranks, search_outcome, shows, shows_best,
    shows_in, time_text, Hit,
};
use crate::search::filters::{
    is_bare_type, is_padded, lemma_no_types, lemma_one_type, lemma_padded_blank, lemma_padded_type,
    lemma_types_not_empty, match_of, type_text, wanted_types,
};
use crate::search::ranking::{
    is_top_k, keeps_largest, law_best_is_one_list, lemma_top_is_ranked,
};
use crate::search::substring::{first_occurrence, lemma_first_from, occurs_at};
use crate::text::{in_capitals, in_small_letters, law_ascii_case_is_ignored, lower_utf8};
use crate::types::filter::FilterOptions;
use crate::types::result::SearchResult;
use vstd::multiset::Multiset;
use vstd::prelude::*;
use vstd::utf8::is_ascii_chars;

verus! {

/// Where a query stands in a name, each of its trigrams is one of the name.
pub proof fn lemma_trigrams_of_part(name: Seq<u8>, query: Seq<u8>, at: int)
    requires
        occurs_at(name, query, at),
    ensures
        forall|i: int|
            0 <= i < trigrams(query).len() ==> trigrams(name).contains(
                #[trigger] trigrams(query)[i],
            ),
{
    assert forall|i: int| 0 <= i < trigrams(query).len() implies trigrams(name).contains(
        #[trigger] trigrams(query)[i],
    ) by {
        let part = name.subrange(at, at + query.len());
        assert(part[i] == name[at + i]);
        assert(part[i + 1] == name[at + i + 1]);
        assert(part[i + 2] == name[at + i + 2]);
        assert(trigrams(name)[at + i] == trigrams(query)[i]);
    }
}

/// The extension map does not hold the entry back: no extension is wanted, it is a directory, or
/// its extension is not too long to stand in the map.
pub open spec fn type_is_indexed(r: Record, types: Seq<Seq<u8>>) -> bool {
    types.len() == 0 || marks_dir(r.flags) || indexed_extension(r.lower, false) is Some
}

/// The entry is one that a search finds: it passes the filters, its lower case name holds the query,
/// and the extension map does not hold it back.
pub open spec fn is_found(
    r: Record,
    filters: FilterOptions,
    types: Seq<Seq<u8>>,
    query: Seq<u8>,
) -> bool {
    match_of(r, filters, types, query) is Some && type_is_indexed(r, types)
}

/// How many of the records are found.
pub open spec fn found_count(
    records: Seq<Record>,
    filters: FilterOptions,
    types: Seq<Seq<u8>>,
    query: Seq<u8>,
) -> nat
    decreases records.len(),
{
    if records.len() == 0 {
        0
    } else {
        found_count(records.drop_last(), filters, types, query) + if is_found(
            records.last(),
            filters,
            types,
            query,
        ) {
            1nat
        } else {
            0nat
        }
    }
}

/// The matching candidates of a faithful index are the entries that are found.
proof fn lemma_candidates_are_found(
    index: Index,
    query: Seq<u8>,
    filters: FilterOptions,
    id: int,
)
    requires
        index.faithful(),
        0 <= id < index.entries@.len(),
    ensures
        ({
            let types = wanted_types(filters.file_types@);
            let r = index.records()[id];
            candidate(index, query, types, id) && match_of(r, filters, types, query) is Some
                <==> is_found(r, filters, types, query)
        }),
{
    let types = wanted_types(filters.file_types@);
    let records = index.records();
    let r = records[id];
    lemma_types_not_empty(
        Seq::new(filters.file_types@.len(), |i: int| type_text(filters.file_types@[i]@)),
    );
    if candidate(index, query, types, id) && types.len() > 0 && !marks_dir(r.flags) {
        let k = choose|k: int|
            0 <= k < types.len() && ids_at(
                extension_lists(index.ext_map),
                #[trigger] types[k],
            ).contains(id as u32);
        assert(indexed_extension(r.lower, marks_dir(r.flags)) == Some(types[k]));
    }
    if is_found(r, filters, types, query) {
        lemma_first_from(r.lower, query, 0);
        let at = first_occurrence(r.lower, query)->Some_0;
        lemma_trigrams_of_part(r.lower, query, at);
        if query.len() >= 3 {
            assert forall|i: int| 0 <= i < trigrams(query).len() implies list_at(
                index.trigram@,
                #[trigger] trigrams(query)[i],
            ).contains(id as u32) by {
                assert(trigrams(r.lower).contains(trigrams(query)[i]));
            }
            assert(posted_under_all(index.trigram@, query, id as u32));
        }
        if types.len() > 0 && !marks_dir(r.flags) {
            let ext = extension_of(r.lower)->Some_0;
            assert(types.contains(ext));
            let k = choose|k: int| 0 <= k < types.len() && types[k] == ext;
            assert(types[k].len() > 0);
            assert(indexed_extension(r.lower, false) == Some(ext));
            assert(ids_at(extension_lists(index.ext_map), types[k]).contains(id as u32));
        }
    }
}

/// The lists of a faithful index hold back no match, but for files whose extension is too long to
/// stand in the extension map where extensions are wanted: looking at the candidates alone finds
/// exactly what looking at every entry would find.
pub proof fn law_search_is_a_full_scan(
    index: Index,
    query: Seq<u8>,
    filters: FilterOptions,
    hits: Seq<Hit>,
)
    requires
        index.faithful(),
        all_hits(index, query, filters, wanted_types(filters.file_types@), hits),
    ensures
        forall|id: int|
            0 <= id < index.entries@.len() ==> (#[trigger] hit_with_id(hits, id) <==> is_found(
                index.records()[id],
                filters,
                wanted_types(filters.file_types@),
                query,
            )),
{
    let types = wanted_types(filters.file_types@);
    let records = index.records();
    assert forall|id: int| 0 <= id < index.entries@.len() implies (#[trigger] hit_with_id(hits, id)
        <==> is_found(records[id], filters, types, query)) by {
        lemma_candidates_are_found(index, query, filters, id);
        if hit_with_id(hits, id) {
            let i = choose|i: int| 0 <= i < hits.len() && (#[trigger] hits[i]).id == id;
            assert(candidate(index, query, types, hits[i].id as int));
            assert(hit_of(records, filters, types, query, hits[i].id) == Some(hits[i]));
        }
        if is_found(records[id], filters, types, query) {
            assert(hit_of(records, filters, types, query, id as usize) is Some);
        }
    }
}

/// The matches that looking at the candidates below `n` one after the other finds.
pub open spec fn hits_in_turn(
    index: Index,
    query: Seq<u8>,
    filters: FilterOptions,
    types: Seq<Seq<u8>>,
    n: int,
) -> Seq<Hit>
    decreases n,
{
    if n <= 0 {
        Seq::empty()
    } else {
        let rest = hits_in_turn(index, query, filters, types, n - 1);
        match hit_of(index.records(), filters, types, query, (n - 1) as usize) {
            Some(hit) if candidate(index, query, types, n - 1) => rest.push(hit),
            _ => rest,
        }
    }
}

/// `hits` are the matches among the candidates below `n`.
spec fn hits_below(
    index: Index,
    query: Seq<u8>,
    filters: FilterOptions,
    types: Seq<Seq<u8>>,
    hits: Seq<Hit>,
    n: int,
) -> bool {
    &&& forall|i: int, j: int|
        0 <= i < j < hits.len() ==> (#[trigger] hits[i]).id < (#[trigger] hits[j]).id
    &&& forall|i: int|
        0 <= i < hits.len() ==> (#[trigger] hits[i]).id < n && candidate(
            index,
            query,
            types,
            hits[i].id as int,
        ) && hit_of(index.records(), filters, types, query, hits[i].id) == Some(hits[i])
    &&& forall|id: usize|
        id < n && candidate(index, query, types, id as int) && hit_of(
            index.records(),
            filters,
            types,
            query,
            id,
        ) is Some ==> #[trigger] hit_with_id(hits, id as int)
}

proof fn lemma_hits_below(
    index: Index,
    query: Seq<u8>,
    filters: FilterOptions,
    types: Seq<Seq<u8>>,
    hits: Seq<Hit>,
    n: int,
)
    requires
        0 <= n <= usize::MAX,
        hits_below(index, query, filters, types, hits, n),
    ensures
        hits == hits_in_turn(index, query, filters, types, n),
    decreases n,
{
    let records = index.records();
    if n == 0 {
        if hits.len() > 0 {
            assert(hits[0].id < 0);
        }
        assert(hits =~= Seq::<Hit>::empty());
    } else {
        let id = (n - 1) as usize;
        let hit = hit_of(records, filters, types, query, id);
        if candidate(index, query, types, id as int) && hit is Some {
            assert(hit_with_id(hits, id as int));
            let k = choose|k: int| 0 <= k < hits.len() && (#[trigger] hits[k]).id == id;
            assert(k == hits.len() - 1) by {
                if k < hits.len() - 1 {
                    assert(hits[k].id < hits[hits.len() - 1].id);
                    assert(hits[hits.len() - 1].id < n);
                }
            }
            let rest = hits.drop_last();
            assert forall|i: int| 0 <= i < rest.len() implies (#[trigger] rest[i]).id < n - 1
                && candidate(index, query, types, rest[i].id as int) && hit_of(
                records,
                filters,
                types,
                query,
                rest[i].id,
            ) == Some(rest[i]) by {
                assert(hits[i].id < hits[k].id);
            }
            assert forall|x: usize|
                x < n - 1 && candidate(index, query, types, x as int) && hit_of(
                    records,
                    filters,
                    types,
                    query,
                    x,
                ) is Some implies #[trigger] hit_with_id(rest, x as int) by {
                assert(hit_with_id(hits, x as int));
                let i = choose|i: int| 0 <= i < hits.len() && (#[trigger] hits[i]).id == x;
                assert(rest[i].id == x);
            }
            lemma_hits_below(index, query, filters, types, rest, n - 1);
            assert(hits =~= rest.push(hits[k]));
        } else {
            assert forall|i: int| 0 <= i < hits.len() implies (#[trigger] hits[i]).id < n - 1
                && candidate(index, query, types, hits[i].id as int) && hit_of(
                records,
                filters,
                types,
                query,
                hits[i].id,
            ) == Some(hits[i]) by {
                assert(hits[i].id < n);
            }
            lemma_hits_below(index, query, filters, types, hits, n - 1);
        }
    }
}

/// Looking at the candidates on all processors finds the same matches, in the same order, as looking
/// at them one after the other.
pub proof fn law_parallel_search_is_a_search_in_turn(
    index: Index,
    query: Seq<u8>,
    filters: FilterOptions,
    types: Seq<Seq<u8>>,
    hits: Seq<Hit>,
)
    requires
        all_hits(index, query, filters, types, hits),
    ensures
        hits == hits_in_turn(index, query, filters, types, index.entries@.len() as int),
{
    assert(index.entries.len() == index.entries@.len());
    lemma_hits_below(index, query, filters, types, hits, index.entries@.len() as int);
}

/// A faithful index has as many matches as entries that are found.
proof fn lemma_hit_count(index: Index, query: Seq<u8>, filters: FilterOptions, n: int)
    requires
        index.faithful(),
        0 <= n <= index.entries@.len(),
    ensures
        hits_in_turn(index, query, filters, wanted_types(filters.file_types@), n).len()
            == found_count(
            index.records().take(n),
            filters,
            wanted_types(filters.file_types@),
            query,
        ),
    decreases n,
{
    assert(index.entries.len() == index.entries@.len());
    if n > 0 {
        let records = index.records();
        lemma_hit_count(index, query, filters, n - 1);
        assert(records.take(n).drop_last() =~= records.take(n - 1));
        assert(records.take(n).last() == records[n - 1]);
        lemma_candidates_are_found(index, query, filters, n - 1);
    }
}

/// Whatever the index, a search gives no more results than asked for, best first, and each shows an
/// entry that passes the filters and whose lower case name holds the query.
pub proof fn law_results_match<F: Fn(usize, usize, usize) -> u32>(
    index: Index,
    query: Seq<u8>,
    filters: FilterOptions,
    score: F,
    results: Seq<SearchResult>,
)
    requires
        search_outcome(index, query, filters, score, results),
    ensures
        results.len() <= filters.max_results,
        forall|i: int, j: int|
            0 <= i <= j < results.len() ==> (#[trigger] results[i]).score->Some_0 >= (
            #[trigger] results[j]).score->Some_0,
        forall|i: int|
            0 <= i < results.len() ==> shows_a_match(index, query, filters, #[trigger] results[i]),
{
    let types = wanted_types(filters.file_types@);
    let (hits, ranked, top) = choose|
        hits: Seq<Hit>,
        ranked: Seq<(usize, u32)>,
        top: Seq<(usize, u32)>,
    |
        {
            &&& all_hits(index, query, filters, types, hits)
            &&& #[trigger] ranked_by(score, query.len() as usize, hits, ranked)
            &&& #[trigger] is_top_k(ranked, filters.max_results as int, top)
            &&& all_shown(results, index.records(), top)
        };
    lemma_top_is_ranked(ranked, filters.max_results as int, top);
    assert forall|i: int, j: int| 0 <= i <= j < results.len() implies (
    #[trigger] results[i]).score->Some_0 >= (#[trigger] results[j]).score->Some_0 by {
        assert(shows_in(results[i], index.records(), top[i]));
        assert(shows_in(results[j], index.records(), top[j]));
        assert(top[i].1 >= top[j].1);
    }
    assert forall|i: int| 0 <= i < results.len() implies shows_a_match(
        index,
        query,
        filters,
        #[trigger] results[i],
    ) by {
        assert(shows_in(results[i], index.records(), top[i]));
        assert(ranked.contains(top[i]));
        let k = choose|k: int| 0 <= k < ranked.len() && ranked[k] == top[i];
        assert(ranks(score, query.len() as usize, hits[k], ranked[k]));
        let hit = hits[k];
        assert(candidate(index, query, types, hit.id as int));
        assert(hit_of(index.records(), filters, types, query, hit.id) == Some(hit));
        lemma_first_from(index.records()[hit.id as int].lower, query, 0);
        assert(shows_in(results[i], index.records(), (hit.id, top[i].1)));
    }
}

/// The result shows an entry that passes the filters and whose lower case name holds the query.
pub open spec fn shows_a_match(
    index: Index,
    query: Seq<u8>,
    filters: FilterOptions,
    result: SearchResult,
) -> bool {
    exists|id: usize, key: u32|
        {
            &&& id < index.entries@.len()
            &&& #[trigger] shows_in(result, index.records(), (id, key))
            &&& match_of(
                index.records()[id as int],
                filters,
                wanted_types(filters.file_types@),
                query,
            ) is Some
        }
}

/// A search of a faithful index misses nothing, where no more entries are found than results asked
/// for: every entry that is found is shown.
pub proof fn law_nothing_is_missed<F: Fn(usize, usize, usize) -> u32>(
    index: Index,
    query: Seq<u8>,
    filters: FilterOptions,
    score: F,
    results: Seq<SearchResult>,
    id: usize,
)
    requires
        index.faithful(),
        search_outcome(index, query, filters, score, results),
        found_count(index.records(), filters, wanted_types(filters.file_types@), query)
            <= filters.max_results,
        id < index.entries@.len(),
        is_found(
            index.records()[id as int],
            filters,
            wanted_types(filters.file_types@),
            query,
        ),
    ensures
        exists|i: int, key: u32|
            0 <= i < results.len() && #[trigger] shows_in(results[i], index.records(), (id, key)),
{
    broadcast use vstd::seq_lib::group_to_multiset_ensures;
    let types = wanted_types(filters.file_types@);
    let (hits, ranked, top) = choose|
        hits: Seq<Hit>,
        ranked: Seq<(usize, u32)>,
        top: Seq<(usize, u32)>,
    |
        {
            &&& all_hits(index, query, filters, types, hits)
            &&& #[trigger] ranked_by(score, query.len() as usize, hits, ranked)
            &&& #[trigger] is_top_k(ranked, filters.max_results as int, top)
            &&& all_shown(results, index.records(), top)
        };
    law_search_is_a_full_scan(index, query, filters, hits);
    law_parallel_search_is_a_search_in_turn(index, query, filters, types, hits);
    lemma_hit_count(index, query, filters, index.entries@.len() as int);
    assert(index.records().take(index.entries@.len() as int) =~= index.records());
    assert(hit_with_id(hits, id as int));
    let h = choose|h: int| 0 <= h < hits.len() && (#[trigger] hits[h]).id == id;
    assert(ranks(score, query.len() as usize, hits[h], ranked[h]));
    let left = choose|left: Multiset<(usize, u32)>| #[trigger] keeps_largest(ranked, top, left);
    assert(ranked.to_multiset().len() == top.to_multiset().len() + left.len());
    assert(left.len() == 0);
    assert(ranked.contains(ranked[h]));
    assert(ranked.to_multiset().count(ranked[h]) > 0);
    assert(left.count(ranked[h]) == 0) by {
        if left.count(ranked[h]) > 0 {
            assert(left.remove(ranked[h]).len() == left.len() - 1);
        }
    }
    assert(top.contains(ranked[h]));
    let i = choose|i: int| 0 <= i < top.len() && top[i] == ranked[h];
    assert(shows_in(results[i], index.records(), (id, top[i].1)));
}

/// The records of listed entries.
pub open spec fn records_listed(items: Seq<Listed>) -> Seq<Record> {
    Seq::new(items.len(), |i: int| items[i].record())
}

/// What is listed can be found: a search of the index made of listed entries that fit shows every
/// one of them that is found, where no more are found than results asked for.
pub proof fn law_listed_can_be_found<F: Fn(usize, usize, usize) -> u32>(
    items: Seq<Listed>,
    index: Index,
    query: Seq<u8>,
    filters: FilterOptions,
    score: F,
    results: Seq<SearchResult>,
    i: int,
)
    requires
        items_fit(items),
        finished(Gathered::nothing().with_all(items), index),
        search_outcome(index, query, filters, score, results),
        found_count(records_listed(items), filters, wanted_types(filters.file_types@), query)
            <= filters.max_results,
        0 <= i < items.len(),
        is_found(items[i].record(), filters, wanted_types(filters.file_types@), query),
    ensures
        exists|r: int, key: u32|
            0 <= r < results.len() && #[trigger] shows(
                results[r],
                items[i].record(),
                key,
                time_text(items[i].modified),
            ),
{
    law_index_of_listed(items, index);
    assert(index.entries.len() == index.entries@.len());
    assert(index.records().len() == index.entries@.len());
    assert(index.records() =~= records_listed(items));
    assert(index.records()[i] == items[i].record());
    law_nothing_is_missed(index, query, filters, score, results, i as usize);
    let (r, key) = choose|r: int, key: u32|
        0 <= r < results.len() && #[trigger] shows_in(
            results[r],
            index.records(),
            (i as usize, key),
        );
    assert(shows(results[r], items[i].record(), key, time_text(items[i].modified)));
}

/// The score of a match depends on its lengths and its place alone.
pub open spec fn gives_one_key<F: Fn(usize, usize, usize) -> u32>(score: F) -> bool {
    forall|name_len: usize, query_len: usize, match_pos: usize, a: u32, b: u32|
        #[trigger] score.ensures((name_len, query_len, match_pos), a) && #[trigger] score.ensures(
            (name_len, query_len, match_pos),
            b,
        ) ==> a == b
}

/// Two results show the same.
pub open spec fn same_result(a: SearchResult, b: SearchResult) -> bool {
    &&& a.name@ == b.name@
    &&& a.path@ == b.path@
    &&& a.size == b.size
    &&& a.modified@ == b.modified@
    &&& a.is_dir == b.is_dir
    &&& a.score == b.score
}

/// Two lists of results show the same, place by place.
pub open spec fn same_results(a: Seq<SearchResult>, b: Seq<SearchResult>) -> bool {
    &&& a.len() == b.len()
    &&& forall|i: int| 0 <= i < a.len() ==> same_result(#[trigger] a[i], #[trigger] b[i])
}

/// Two equal searches of the same index give the same results in the same order, equal scores
/// included, on however many processors they ran.
pub proof fn law_equal_searches_agree<F: Fn(usize, usize, usize) -> u32>(
    index: Index,
    query: Seq<u8>,
    filters: FilterOptions,
    types: Seq<Seq<u8>>,
    score: F,
    a: Seq<SearchResult>,
    b: Seq<SearchResult>,
)
    requires
        gives_one_key(score),
        shows_best(index, query, filters, types, score, a),
        shows_best(index, query, filters, types, score, b),
    ensures
        same_results(a, b),
{
    let (hits_a, ranked_a, top_a) = choose|
        hits: Seq<Hit>,
        ranked: Seq<(usize, u32)>,
        top: Seq<(usize, u32)>,
    |
        {
            &&& all_hits(index, query, filters, types, hits)
            &&& #[trigger] ranked_by(score, query.len() as usize, hits, ranked)
            &&& #[trigger] is_top_k(ranked, filters.max_results as int, top)
            &&& all_shown(a, index.records(), top)
        };
    let (hits_b, ranked_b, top_b) = choose|
        hits: Seq<Hit>,
        ranked: Seq<(usize, u32)>,
        top: Seq<(usize, u32)>,
    |
        {
            &&& all_hits(index, query, filters, types, hits)
            &&& #[trigger] ranked_by(score, query.len() as usize, hits, ranked)
            &&& #[trigger] is_top_k(ranked, filters.max_results as int, top)
            &&& all_shown(b, index.records(), top)
        };
    law_parallel_search_is_a_search_in_turn(index, query, filters, types, hits_a);
    law_parallel_search_is_a_search_in_turn(index, query, filters, types, hits_b);
    assert forall|i: int| 0 <= i < ranked_a.len() implies ranked_a[i] == ranked_b[i] by {
        assert(ranks(score, query.len() as usize, hits_a[i], ranked_a[i]));
        assert(ranks(score, query.len() as usize, hits_b[i], ranked_b[i]));
    }
    assert(ranked_a =~= ranked_b);
    law_best_is_one_list(ranked_a, filters.max_results as int, top_a, top_b);
    assert forall|i: int| 0 <= i < a.len() implies same_result(#[trigger] a[i], #[trigger] b[i]) by {
        assert(shows_in(a[i], index.records(), top_a[i]));
        assert(shows_in(b[i], index.records(), top_b[i]));
    }
}

/// Whether an ASCII query is written in capitals or in small letters makes no difference to what is
/// found, to the scores or to the order.
pub proof fn law_query_case_is_ignored<F: Fn(usize, usize, usize) -> u32>(
    index: Index,
    query: Seq<char>,
    filters: FilterOptions,
    score: F,
    a: Seq<SearchResult>,
    b: Seq<SearchResult>,
)
    requires
        is_ascii_chars(query),
        gives_one_key(score),
        search_outcome(index, lower_utf8(in_capitals(query)), filters, score, a),
        search_outcome(index, lower_utf8(in_small_letters(query)), filters, score, b),
    ensures
        same_results(a, b),
{
    law_ascii_case_is_ignored(query);
    law_equal_searches_agree(
        index,
        lower_utf8(query),
        filters,
        wanted_types(filters.file_types@),
        score,
        a,
        b,
    );
}

/// Two filters that differ in their file types at most.
pub open spec fn same_but_types(f: FilterOptions, g: FilterOptions) -> bool {
    &&& f.min_size == g.min_size
    &&& f.max_size == g.max_size
    &&& f.include_hidden == g.include_hidden
    &&& f.max_results == g.max_results
}

/// File types that come to the same wanted extensions give the same search.
pub proof fn law_same_types_search_alike<F: Fn(usize, usize, usize) -> u32>(
    index: Index,
    query: Seq<u8>,
    f: FilterOptions,
    g: FilterOptions,
    score: F,
    a: Seq<SearchResult>,
    b: Seq<SearchResult>,
)
    requires
        same_but_types(f, g),
        wanted_types(f.file_types@) == wanted_types(g.file_types@),
        gives_one_key(score),
        search_outcome(index, query, f, score, a),
        search_outcome(index, query, g, score, b),
    ensures
        same_results(a, b),
{
    let types = wanted_types(f.file_types@);
    let (hits, ranked, top) = choose|
        hits: Seq<Hit>,
        ranked: Seq<(usize, u32)>,
        top: Seq<(usize, u32)>,
    |
        {
            &&& all_hits(index, query, g, types, hits)
            &&& #[trigger] ranked_by(score, query.len() as usize, hits, ranked)
            &&& #[trigger] is_top_k(ranked, g.max_results as int, top)
            &&& all_shown(b, index.records(), top)
        };
    assert forall|id: usize|
        hit_of(index.records(), f, types, query, id) == #[trigger] hit_of(
            index.records(),
            g,
            types,
            query,
            id,
        ) by {
    }
    assert(all_hits(index, query, f, types, hits)) by {
        assert forall|i: int| 0 <= i < hits.len() implies candidate(
            index,
            query,
            types,
            (#[trigger] hits[i]).id as int,
        ) && hit_of(index.records(), f, types, query, hits[i].id) == Some(hits[i]) by {
            assert(hit_of(index.records(), g, types, query, hits[i].id) == Some(hits[i]));
        }
        assert forall|id: usize|
            candidate(index, query, types, id as int) && hit_of(
                index.records(),
                f,
                types,
                query,
                id,
            ) is Some implies #[trigger] hit_with_id(hits, id as int) by {
            assert(hit_of(index.records(), g, types, query, id) is Some);
        }
    }
    assert(shows_best(index, query, f, types, score, b));
    law_equal_searches_agree(index, query, f, types, score, a, b);
}

/// However a file type is padded with white space and dots and whether it is written in capitals,
/// and whatever blank file types stand beside it, the search is the one for that type alone.
pub proof fn law_type_spelling_is_ignored<F: Fn(usize, usize, usize) -> u32>(
    index: Index,
    query: Seq<u8>,
    f: FilterOptions,
    g: FilterOptions,
    score: F,
    a: Seq<SearchResult>,
    b: Seq<SearchResult>,
    p: int,
)
    requires
        same_but_types(f, g),
        f.file_types@.len() == 1,
        is_bare_type(f.file_types@[0]@),
        0 <= p < g.file_types@.len(),
        is_padded(g.file_types@[p]@, f.file_types@[0]@) || is_padded(
            g.file_types@[p]@,
            in_capitals(f.file_types@[0]@),
        ),
        forall|i: int|
            0 <= i < g.file_types@.len() && i != p ==> is_padded(
                (#[trigger] g.file_types@[i])@,
                Seq::<char>::empty(),
            ),
        gives_one_key(score),
        search_outcome(index, query, f, score, a),
        search_outcome(index, query, g, score, b),
    ensures
        same_results(a, b),
{
    let e = f.file_types@[0]@;
    lemma_padded_type(g.file_types@[p]@, e);
    let texts = Seq::new(g.file_types@.len(), |i: int| type_text(g.file_types@[i]@));
    assert forall|i: int| 0 <= i < texts.len() && i != p implies (#[trigger] texts[i]).len()
        == 0 by {
        assert(is_padded(g.file_types@[i]@, Seq::<char>::empty()));
        lemma_padded_blank(g.file_types@[i]@);
    }
    lemma_one_type(texts, p);
    let alone = Seq::new(f.file_types@.len(), |i: int| type_text(f.file_types@[i]@));
    lemma_one_type(alone, 0);
    law_same_types_search_alike(index, query, f, g, score, a, b);
}

/// Blank file types, made of white space and dots between it alone, narrow nothing: the search is
/// the one without file types.
pub proof fn law_blank_types_narrow_nothing<F: Fn(usize, usize, usize) -> u32>(
    index: Index,
    query: Seq<u8>,
    f: FilterOptions,
    g: FilterOptions,
    score: F,
    a: Seq<SearchResult>,
    b: Seq<SearchResult>,
)
    requires
        same_but_types(f, g),
        f.file_types@.len() == 0,
        forall|i: int|
            0 <= i < g.file_types@.len() ==> is_padded(
                (#[trigger] g.file_types@[i])@,
                Seq::<char>::empty(),
            ),
        gives_one_key(score),
        search_outcome(index, query, f, score, a),
        search_outcome(index, query, g, score, b),
    ensures
        same_results(a, b),
{
    let texts = Seq::new(g.file_types@.len(), |i: int| type_text(g.file_types@[i]@));
    assert forall|i: int| 0 <= i < texts.len() implies (#[trigger] texts[i]).len() == 0 by {
        assert(is_padded(g.file_types@[i]@, Seq::<char>::empty()));
        lemma_padded_blank(g.file_types@[i]@);
    }
    lemma_no_types(texts);
    law_same_types_search_alike(index, query, f, g, score, a, b);
}

} // verus!
