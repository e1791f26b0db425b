//! What a search guarantees, told on the bytes of the index, the fields of the filters and the
//! fields of the results.

use crate::index::entry::law_marks_are_the_lowest_bits;
use crate::index::extension_map::{extension_lists, ids_at};
use crate::index::posting_map::list_at;
use crate::index::store::{
    extension_of, has_no_dot, indexed_extension, is_directory, is_hidden_entry, last_dot,
    law_extension_follows_the_last_dot, law_short_extensions_are_indexed, lemma_last_dot,
    lower_name_at, name_at, path_at, Index,
};
use crate::index::trigram::{
    has_window, law_trigrams_are_those_of_the_windows, posted_under_all, trigrams,
};
use crate::search::candidates::{candidate, listed_by_type};
use crate::search::engine::{
    all_hits, all_shown, hit_of, hit_with_id, ranked_by, ranks, search_outcome, shows_in,
    timestamp_text, Hit,
};
use crate::search::filters::{has_wanted_type, match_of, non_empty_utf8, type_text, wanted_types};
use crate::search::laws::{
    is_found, law_results_match, law_search_is_a_full_scan, shows_a_match,
};
use crate::search::ranking::{is_top_k, keeps_largest, lemma_top_is_ranked};
use crate::search::substring::{first_occurrence, lemma_first_from, occurs_at};
use crate::text::{
    all_dots, all_white, law_leading_dots_are_taken_off, law_trimming_takes_off_the_white_ends,
    lemma_no_bytes, lemma_padding_is_taken_off, lower_text, lower_utf8, shown_text, trimmed,
    white_space, without_leading_dots,
};
use crate::types::filter::FilterOptions;
use crate::types::result::SearchResult;
use vstd::multiset::Multiset;
use vstd::prelude::*;
use vstd::utf8::encode_utf8;

verus! {

/// From `at` on, the name goes on with the bytes of the part.
pub open spec fn stands_at(name: Seq<u8>, part: Seq<u8>, at: int) -> bool {
    &&& 0 <= at
    &&& at + part.len() <= name.len()
    &&& forall|k: int| 0 <= k < part.len() ==> name[at + k] == #[trigger] part[k]
}

/// The part stands somewhere in the name.
pub open spec fn holds(name: Seq<u8>, part: Seq<u8>) -> bool {
    exists|at: int| #[trigger] stands_at(name, part, at)
}

/// A file type as it may be written: white space, dots, the type itself, and white space again. The
/// type itself ends in no white space, starts with no dot, and starts with no white space where no
/// dot stands before it.
pub open spec fn asks_for(s: Seq<char>, core: Seq<char>) -> bool {
    &&& core.len() > 0
    &&& core[0] != '.'
    &&& !white_space(core.last())
    &&& exists|before: Seq<char>, dots: Seq<char>, after: Seq<char>|
        {
            &&& #[trigger] all_white(before)
            &&& #[trigger] all_dots(dots)
            &&& #[trigger] all_white(after)
            &&& dots.len() > 0 || !white_space(core[0])
            &&& s == before + dots + core + after
        }
}

/// The written file type names a type.
pub open spec fn names_a_type(s: Seq<char>) -> bool {
    exists|core: Seq<char>| #[trigger] asks_for(s, core) && lower_utf8(core).len() > 0
}

/// The written file type is the one that the name has behind its last dot, at `dot`.
pub open spec fn has_asked_type(lower: Seq<u8>, s: Seq<char>, dot: int) -> bool {
    &&& 0 <= dot < lower.len()
    &&& lower[dot] == 0x2e
    &&& has_no_dot(lower.skip(dot + 1))
    &&& 1 <= lower.skip(dot + 1).len() <= 12
    &&& exists|core: Seq<char>| #[trigger]
        asks_for(s, core) && lower.skip(dot + 1) == lower_utf8(core)
}

/// No type is named among the written ones, or the name has one of them.
pub open spec fn type_is_let_through(lower: Seq<u8>, file_types: Seq<String>) -> bool {
    ||| forall|k: int| 0 <= k < file_types.len() ==> !names_a_type(#[trigger] file_types[k]@)
    ||| exists|k: int, dot: int|
        0 <= k < file_types.len() && #[trigger] has_asked_type(lower, file_types[k]@, dot)
}

/// The entry is one that the filters ask for: hidden entries on demand only, and files within the
/// limits that are given and of one of the types that are named.
pub open spec fn is_let_through(index: Index, filters: FilterOptions, id: int) -> bool {
    &&& filters.include_hidden || !is_hidden_entry(index, id)
    &&& is_directory(index, id) || {
        &&& filters.min_size matches Some(least) ==> index.entries@[id].size >= least
        &&& filters.max_size matches Some(most) ==> index.entries@[id].size <= most
        &&& type_is_let_through(lower_name_at(index, id), filters.file_types@)
    }
}

/// The filters let the entry through, and its lower case name holds the query.
pub open spec fn answers(index: Index, query: Seq<u8>, filters: FilterOptions, id: int) -> bool {
    &&& 0 <= id < index.entries@.len()
    &&& is_let_through(index, filters, id)
    &&& holds(lower_name_at(index, id), query)
}

/// The result shows what the index holds of the entry: name and path as text, size, kind, and the
/// minute of the last change where that is known and can be written.
pub open spec fn is_result_of(result: SearchResult, index: Index, id: int) -> bool {
    let e = index.entries@[id];
    &&& result.name@ == shown_text(name_at(index, id))
    &&& result.path@ == shown_text(path_at(index, id))
    &&& result.size == e.size
    &&& result.is_dir == is_directory(index, id)
    &&& e.modified == 0 || e.modified > i64::MAX ==> result.modified@.len() == 0
    &&& 0 < e.modified <= i64::MAX ==> match timestamp_text(
        e.modified as i64,
        "[year]-[month]-[day] [hour]:[minute]"@,
    ) {
        Some(text) => result.modified@ == text,
        None => result.modified@.len() == 0,
    }
}

/// The written file type comes to the bytes of its core in lower case.
proof fn lemma_asked_text(s: Seq<char>, core: Seq<char>)
    requires
        asks_for(s, core),
    ensures
        type_text(s) == lower_text(core),
{
    let (before, dots, after) = choose|before: Seq<char>, dots: Seq<char>, after: Seq<char>|
        {
            &&& #[trigger] all_white(before)
            &&& #[trigger] all_dots(dots)
            &&& #[trigger] all_white(after)
            &&& dots.len() > 0 || !white_space(core[0])
            &&& s == before + dots + core + after
        };
    lemma_padding_is_taken_off(before, dots, core, after);
}

/// A written file type that comes to something asks for what is left of it without its ends.
proof fn lemma_text_is_asked_for(s: Seq<char>)
    requires
        without_leading_dots(trimmed(s)).len() > 0,
    ensures
        asks_for(s, without_leading_dots(trimmed(s))),
{
    let core = without_leading_dots(trimmed(s));
    let ends = law_trimming_takes_off_the_white_ends(s);
    let dots = law_leading_dots_are_taken_off(trimmed(s));
    assert(trimmed(s).last() == core.last());
    assert(s =~= ends.0 + dots + core + ends.1);
    if dots.len() == 0 {
        assert(trimmed(s)[0] == core[0]);
    }
    assert(all_white(ends.0) && all_dots(dots) && all_white(ends.1));
}

/// A type is named exactly where the written one comes to something.
proof fn lemma_named_type(s: Seq<char>)
    ensures
        names_a_type(s) <==> type_text(s).len() > 0,
{
    if names_a_type(s) {
        let core = choose|core: Seq<char>| #[trigger]
            asks_for(s, core) && lower_utf8(core).len() > 0;
        lemma_asked_text(s, core);
        lemma_no_bytes(lower_text(core));
    }
    if type_text(s).len() > 0 {
        let core = without_leading_dots(trimmed(s));
        lemma_no_bytes(lower_text(core));
        if core.len() == 0 {
            assert(lower_text(core).len() == 0);
        }
        lemma_text_is_asked_for(s);
    }
}

/// What is left of some texts are the bytes of those that are not empty.
proof fn lemma_kept_texts(texts: Seq<Seq<char>>)
    ensures
        forall|b: Seq<u8>| #[trigger]
            non_empty_utf8(texts).contains(b) <==> exists|k: int|
                0 <= k < texts.len() && (#[trigger] texts[k]).len() > 0 && encode_utf8(texts[k])
                    == b,
    decreases texts.len(),
{
    if texts.len() > 0 {
        let rest = texts.drop_last();
        let kept = non_empty_utf8(rest);
        let last = texts[texts.len() - 1];
        lemma_kept_texts(rest);
        assert forall|b: Seq<u8>| #[trigger] non_empty_utf8(texts).contains(b) <==> exists|k: int|
            0 <= k < texts.len() && (#[trigger] texts[k]).len() > 0 && encode_utf8(texts[k])
                == b by {
            assert(kept.contains(b) <==> exists|k: int|
                0 <= k < rest.len() && (#[trigger] rest[k]).len() > 0 && encode_utf8(rest[k])
                    == b);
            if kept.contains(b) {
                let k = choose|k: int|
                    0 <= k < rest.len() && (#[trigger] rest[k]).len() > 0 && encode_utf8(rest[k])
                        == b;
                assert(texts[k].len() > 0 && encode_utf8(texts[k]) == b);
            }
            if last.len() > 0 {
                crate::sorting::lemma_push_contains(kept, encode_utf8(last), b);
            }
            if exists|k: int|
                0 <= k < texts.len() && (#[trigger] texts[k]).len() > 0 && encode_utf8(texts[k])
                    == b {
                let k = choose|k: int|
                    0 <= k < texts.len() && (#[trigger] texts[k]).len() > 0 && encode_utf8(
                        texts[k],
                    ) == b;
                if k < rest.len() {
                    assert(rest[k].len() > 0 && encode_utf8(rest[k]) == b);
                }
            }
        }
    }
}

/// A query is found in a name exactly where it stands somewhere in it, and its first place is the
/// least of those where it stands.
pub proof fn law_first_place_is_the_least(name: Seq<u8>, query: Seq<u8>)
    ensures
        first_occurrence(name, query) is Some <==> holds(name, query),
        first_occurrence(name, query) matches Some(p) ==> stands_at(name, query, p) && forall|q: int|
            #[trigger] stands_at(name, query, q) ==> p <= q,
{
    assert forall|at: int| #[trigger] stands_at(name, query, at) <==> occurs_at(
        name,
        query,
        at,
    ) by {
        if 0 <= at && at + query.len() <= name.len() {
            let part = name.subrange(at, at + query.len());
            if stands_at(name, query, at) {
                assert(part =~= query);
            }
            if occurs_at(name, query, at) {
                assert forall|k: int| 0 <= k < query.len() implies name[at + k]
                    == #[trigger] query[k] by {
                    assert(part[k] == name[at + k]);
                }
            }
        }
    }
    lemma_first_from(name, query, 0);
    if let Some(p) = first_occurrence(name, query) {
        assert(stands_at(name, query, p));
        assert forall|q: int| #[trigger] stands_at(name, query, q) implies p <= q by {
            assert(occurs_at(name, query, q));
        }
    } else {
        assert forall|at: int| !(#[trigger] stands_at(name, query, at)) by {
            assert(!occurs_at(name, query, at));
        }
    }
}

/// The extensions that a search is narrowed to are the named types.
proof fn lemma_wanted_types(lower: Seq<u8>, file_types: Seq<String>)
    ensures
        wanted_types(file_types).len() == 0 <==> forall|k: int|
            0 <= k < file_types.len() ==> !names_a_type(#[trigger] file_types[k]@),
        has_wanted_type(lower, wanted_types(file_types)) && indexed_extension(lower, false) is Some
            <==> exists|k: int, dot: int|
            0 <= k < file_types.len() && #[trigger] has_asked_type(lower, file_types[k]@, dot),
{
    let texts = Seq::new(file_types.len(), |i: int| type_text(file_types[i]@));
    let types = wanted_types(file_types);
    lemma_kept_texts(texts);
    assert forall|k: int| 0 <= k < file_types.len() implies (names_a_type(
        #[trigger] file_types[k]@,
    ) <==> texts[k].len() > 0) by {
        lemma_named_type(file_types[k]@);
    }
    if types.len() > 0 {
        assert(types.contains(types[0]));
        let k = choose|k: int|
            0 <= k < texts.len() && (#[trigger] texts[k]).len() > 0 && encode_utf8(texts[k])
                == types[0];
        assert(names_a_type(file_types[k]@));
    } else {
        assert forall|k: int| 0 <= k < file_types.len() implies !names_a_type(
            #[trigger] file_types[k]@,
        ) by {
            if texts[k].len() > 0 {
                assert(types.contains(encode_utf8(texts[k])));
            }
        }
    }
    lemma_last_dot(lower);
    if has_wanted_type(lower, types) && indexed_extension(lower, false) is Some {
        let dot = last_dot(lower)->Some_0;
        let ext = lower.skip(dot + 1);
        assert forall|i: int| 0 <= i < ext.len() implies #[trigger] ext[i] != 0x2e by {
            assert(ext[i] == lower[dot + 1 + i]);
        }
        let k = choose|k: int|
            0 <= k < texts.len() && (#[trigger] texts[k]).len() > 0 && encode_utf8(texts[k]) == ext;
        let s = file_types[k]@;
        let core = without_leading_dots(trimmed(s));
        if core.len() == 0 {
            assert(lower_text(core).len() == 0);
        }
        lemma_text_is_asked_for(s);
        assert(has_asked_type(lower, file_types[k]@, dot));
    }
    if exists|k: int, dot: int|
        0 <= k < file_types.len() && #[trigger] has_asked_type(lower, file_types[k]@, dot) {
        let (k, dot) = choose|k: int, dot: int|
            0 <= k < file_types.len() && #[trigger] has_asked_type(lower, file_types[k]@, dot);
        let ext = lower.skip(dot + 1);
        let core = choose|core: Seq<char>| #[trigger]
            asks_for(file_types[k]@, core) && ext == lower_utf8(core);
        assert(lower =~= lower.take(dot) + seq![0x2eu8] + ext);
        law_extension_follows_the_last_dot(lower.take(dot), ext);
        law_short_extensions_are_indexed(lower.take(dot), ext);
        lemma_asked_text(file_types[k]@, core);
        lemma_no_bytes(lower_text(core));
        assert(texts[k].len() > 0 && encode_utf8(texts[k]) == ext);
        assert(types.contains(ext));
    }
}

/// The entries that answer are those that are found.
proof fn lemma_answers_are_found(index: Index, query: Seq<u8>, filters: FilterOptions, id: int)
    requires
        0 <= id < index.entries@.len(),
    ensures
        answers(index, query, filters, id) <==> is_found(
            index.records()[id],
            filters,
            wanted_types(filters.file_types@),
            query,
        ),
{
    let lower = lower_name_at(index, id);
    let r = index.records()[id];
    assert(r.lower == lower);
    law_marks_are_the_lowest_bits(r.flags);
    lemma_wanted_types(lower, filters.file_types@);
    law_first_place_is_the_least(lower, query);
}

/// `score` gives the key for an entry: it is told how long the lower case name and the query are,
/// and the least place where the query stands in the name.
pub open spec fn is_key_of<F: Fn(usize, usize, usize) -> u32>(
    key: u32,
    score: F,
    index: Index,
    query: Seq<u8>,
    id: int,
) -> bool {
    exists|at: usize|
        {
            &&& #[trigger] stands_at(lower_name_at(index, id), query, at as int)
            &&& forall|q: int|
                0 <= q < at ==> !(#[trigger] stands_at(lower_name_at(index, id), query, q))
            &&& score.ensures(
                (lower_name_at(index, id).len() as usize, query.len() as usize, at),
                key,
            )
        }
}

/// The results show the entries `ids`, one by one, each once.
pub open spec fn are_results_of<F: Fn(usize, usize, usize) -> u32>(
    results: Seq<SearchResult>,
    index: Index,
    query: Seq<u8>,
    filters: FilterOptions,
    score: F,
    ids: Seq<int>,
) -> bool {
    &&& ids.len() == results.len()
    &&& forall|i: int|
        0 <= i < ids.len() ==> answers(index, query, filters, #[trigger] ids[i]) && is_result_of(
            results[i],
            index,
            ids[i],
        ) && results[i].score is Some && is_key_of(
            results[i].score->Some_0,
            score,
            index,
            query,
            ids[i],
        )
    &&& forall|i: int, j: int| 0 <= i < j < ids.len() ==> #[trigger] ids[i] != #[trigger] ids[j]
}

/// A larger key stands further up, and of equal keys the one of the smaller id.
pub open spec fn stands_above(key: u32, id: int, other_key: u32, other_id: int) -> bool {
    key > other_key || (key == other_key && id < other_id)
}

/// The entry answers, but the results are full of entries that stand above it.
pub open spec fn is_outdone<F: Fn(usize, usize, usize) -> u32>(
    id: int,
    results: Seq<SearchResult>,
    index: Index,
    query: Seq<u8>,
    filters: FilterOptions,
    score: F,
    ids: Seq<int>,
) -> bool {
    &&& results.len() == filters.max_results
    &&& exists|key: u32| #[trigger]
        is_key_of(key, score, index, query, id) && forall|i: int|
            0 <= i < ids.len() ==> stands_above(
                (#[trigger] results[i]).score->Some_0,
                ids[i],
                key,
                id,
            )
}

/// The results of a search of a faithful index are the best of the entries that answer, best first
/// and each once: no more than asked for, and an entry that answers is left out only where as many
/// as asked for stand above it.
pub proof fn law_results_are_the_best_answers<F: Fn(usize, usize, usize) -> u32>(
    index: Index,
    query: Seq<u8>,
    filters: FilterOptions,
    score: F,
    results: Seq<SearchResult>,
) -> (ids: Seq<int>)
    requires
        index.faithful(),
        search_outcome(index, query, filters, score, results),
    ensures
        results.len() <= filters.max_results,
        are_results_of(results, index, query, filters, score, ids),
        forall|i: int, j: int|
            0 <= i < j < ids.len() ==> stands_above(
                (#[trigger] results[i]).score->Some_0,
                ids[i],
                (#[trigger] results[j]).score->Some_0,
                ids[j],
            ),
        forall|id: int| #[trigger]
            answers(index, query, filters, id) && !ids.contains(id) ==> is_outdone(
                id,
                results,
                index,
                query,
                filters,
                score,
                ids,
            ),
{
    broadcast use vstd::seq_lib::group_to_multiset_ensures;
    let types = wanted_types(filters.file_types@);
    let records = index.records();
    let query_len = query.len() as usize;
    let (hits, ranked, top) = choose|
        hits: Seq<Hit>,
        ranked: Seq<(usize, u32)>,
        top: Seq<(usize, u32)>,
    |
        {
            &&& all_hits(index, query, filters, types, hits)
            &&& #[trigger] ranked_by(score, query.len() as usize, hits, ranked)
            &&& #[trigger] is_top_k(ranked, filters.max_results as int, top)
            &&& all_shown(results, index.records(), top)
        };
    let left = choose|left: Multiset<(usize, u32)>| #[trigger] keeps_largest(ranked, top, left);
    let ids = Seq::new(top.len(), |i: int| top[i].0 as int);
    assert(index.entries.len() == index.entries@.len());
    lemma_top_is_ranked(ranked, filters.max_results as int, top);
    law_search_is_a_full_scan(index, query, filters, hits);
    assert forall|k: int| 0 <= k < ranked.len() implies answers(
        index,
        query,
        filters,
        (#[trigger] ranked[k]).0 as int,
    ) && is_key_of(ranked[k].1, score, index, query, ranked[k].0 as int) by {
        let id = ranked[k].0 as int;
        assert(ranks(score, query_len, hits[k], ranked[k]));
        assert(hit_with_id(hits, id));
        assert(hit_of(records, filters, types, query, hits[k].id) == Some(hits[k]));
        lemma_answers_are_found(index, query, filters, id);
        law_first_place_is_the_least(lower_name_at(index, id), query);
        assert(stands_at(lower_name_at(index, id), query, hits[k].match_pos as int));
    }
    assert forall|i: int, j: int| 0 <= i < j < ranked.len() implies (#[trigger] ranked[i]).0 != (
    #[trigger] ranked[j]).0 by {
        assert(ranks(score, query_len, hits[i], ranked[i]));
        assert(ranks(score, query_len, hits[j], ranked[j]));
        assert(hits[i].id < hits[j].id);
    }
    assert(ranked.no_duplicates());
    ranked.lemma_multiset_has_no_duplicates();
    assert forall|x: (usize, u32)| #[trigger] top.to_multiset().contains(x) implies
        top.to_multiset().count(x) == 1 by {
        assert(ranked.to_multiset().contains(x));
        assert(ranked.to_multiset().count(x) == 1);
    }
    top.lemma_multiset_has_no_duplicates_conv();
    assert forall|i: int| 0 <= i < top.len() implies exists|k: int|
        0 <= k < ranked.len() && ranked[k] == #[trigger] top[i] by {
        assert(ranked.contains(top[i]));
    }
    assert forall|i: int| 0 <= i < ids.len() implies answers(
        index,
        query,
        filters,
        #[trigger] ids[i],
    ) && is_result_of(results[i], index, ids[i]) && results[i].score is Some && is_key_of(
        results[i].score->Some_0,
        score,
        index,
        query,
        ids[i],
    ) by {
        assert(shows_in(results[i], records, top[i]));
        let k = choose|k: int| 0 <= k < ranked.len() && ranked[k] == top[i];
        law_marks_are_the_lowest_bits(index.entries@[ids[i]].flags);
        assert(records[ids[i]].name == name_at(index, ids[i]));
        assert(records[ids[i]].path == path_at(index, ids[i]));
    }
    assert forall|i: int, j: int| 0 <= i < j < ids.len() implies #[trigger] ids[i]
        != #[trigger] ids[j] by {
        let k = choose|k: int| 0 <= k < ranked.len() && ranked[k] == top[i];
        let l = choose|l: int| 0 <= l < ranked.len() && ranked[l] == top[j];
        assert(top[i] != top[j]);
        if ids[i] == ids[j] {
            assert(ranked[k].0 == ranked[l].0);
        }
    }
    assert forall|i: int, j: int| 0 <= i < j < ids.len() implies stands_above(
        (#[trigger] results[i]).score->Some_0,
        ids[i],
        (#[trigger] results[j]).score->Some_0,
        ids[j],
    ) by {
        assert(shows_in(results[i], records, top[i]));
        assert(shows_in(results[j], records, top[j]));
        assert(ids[i] != ids[j]);
        assert(top[i].1 > top[j].1 || (top[i].1 == top[j].1 && top[i].0 <= top[j].0));
    }
    assert forall|id: int| #[trigger]
        answers(index, query, filters, id) && !ids.contains(id) implies is_outdone(
        id,
        results,
        index,
        query,
        filters,
        score,
        ids,
    ) by {
        lemma_answers_are_found(index, query, filters, id);
        assert(hit_with_id(hits, id));
        let h = choose|h: int| 0 <= h < hits.len() && (#[trigger] hits[h]).id == id;
        assert(ranks(score, query_len, hits[h], ranked[h]));
        let key = ranked[h].1;
        assert(is_key_of(key, score, index, query, id));
        assert(!top.contains(ranked[h])) by {
            if top.contains(ranked[h]) {
                let i = choose|i: int| 0 <= i < top.len() && top[i] == ranked[h];
                assert(ids[i] == id);
            }
        }
        assert(ranked.contains(ranked[h]));
        assert(ranked.to_multiset().count(ranked[h]) > 0);
        assert(top.to_multiset().count(ranked[h]) == 0);
        assert(left.count(ranked[h]) > 0);
        assert(ranked.to_multiset().len() == top.to_multiset().len() + left.len());
        assert(left.remove(ranked[h]).len() == left.len() - 1);
        assert forall|i: int| 0 <= i < ids.len() implies stands_above(
            (#[trigger] results[i]).score->Some_0,
            ids[i],
            key,
            id,
        ) by {
            assert(shows_in(results[i], records, top[i]));
            assert(left.count(ranked[h]) > 0);
            assert(ids[i] != id);
            assert(top[i].1 > key || (top[i].1 == key && top[i].0 <= ranked[h].0));
        }
    }
    ids
}

/// Whatever the index, no result that is a file is smaller than the least size that is asked for,
/// and none is larger than the largest; each limit holds whether or not the other is given.
pub proof fn law_results_keep_to_the_size_limits<F: Fn(usize, usize, usize) -> u32>(
    index: Index,
    query: Seq<u8>,
    filters: FilterOptions,
    score: F,
    results: Seq<SearchResult>,
)
    requires
        search_outcome(index, query, filters, score, results),
    ensures
        filters.min_size matches Some(least) ==> forall|i: int|
            0 <= i < results.len() && !(#[trigger] results[i]).is_dir ==> least <= results[i].size,
        filters.max_size matches Some(most) ==> forall|i: int|
            0 <= i < results.len() && !(#[trigger] results[i]).is_dir ==> results[i].size <= most,
{
    law_results_match(index, query, filters, score, results);
    assert forall|i: int| 0 <= i < results.len() && !(#[trigger] results[i]).is_dir implies (
    filters.min_size matches Some(least) ==> results[i].size >= least) && (
    filters.max_size matches Some(most) ==> results[i].size <= most) by {
        assert(shows_a_match(index, query, filters, results[i]));
    }
}

/// Whatever the index, each result shows an entry whose lower case name holds the query, a hidden
/// one only on demand, and where types are named a file only if the name has one of them.
pub proof fn law_results_keep_to_the_filters<F: Fn(usize, usize, usize) -> u32>(
    index: Index,
    query: Seq<u8>,
    filters: FilterOptions,
    score: F,
    results: Seq<SearchResult>,
    i: int,
) -> (id: int)
    requires
        search_outcome(index, query, filters, score, results),
        0 <= i < results.len(),
    ensures
        0 <= id < index.entries@.len(),
        is_result_of(results[i], index, id),
        holds(lower_name_at(index, id), query),
        is_hidden_entry(index, id) ==> filters.include_hidden,
        !results[i].is_dir ==> (forall|k: int|
            0 <= k < filters.file_types@.len() ==> !names_a_type(
                #[trigger] filters.file_types@[k]@,
            )) || (exists|k: int, core: Seq<char>|
            0 <= k < filters.file_types@.len() && #[trigger] asks_for(
                filters.file_types@[k]@,
                core,
            ) && extension_of(lower_name_at(index, id)) == Some(lower_utf8(core))),
{
    law_results_match(index, query, filters, score, results);
    assert(shows_a_match(index, query, filters, results[i]));
    let (id, key) = choose|id: usize, key: u32|
        {
            &&& id < index.entries@.len()
            &&& #[trigger] shows_in(results[i], index.records(), (id, key))
            &&& match_of(
                index.records()[id as int],
                filters,
                wanted_types(filters.file_types@),
                query,
            ) is Some
        };
    let lower = lower_name_at(index, id as int);
    let r = index.records()[id as int];
    assert(r.lower == lower);
    assert(r.name == name_at(index, id as int));
    assert(r.path == path_at(index, id as int));
    law_marks_are_the_lowest_bits(r.flags);
    law_first_place_is_the_least(lower, query);
    lemma_wanted_types(lower, filters.file_types@);
    let types = wanted_types(filters.file_types@);
    if !results[i].is_dir && types.len() > 0 {
        let texts = Seq::new(
            filters.file_types@.len(),
            |k: int| type_text(filters.file_types@[k]@),
        );
        let ext = extension_of(lower)->Some_0;
        lemma_kept_texts(texts);
        assert(types.contains(ext));
        let k = choose|k: int|
            0 <= k < texts.len() && (#[trigger] texts[k]).len() > 0 && encode_utf8(texts[k]) == ext;
        let s = filters.file_types@[k]@;
        let core = without_leading_dots(trimmed(s));
        if core.len() == 0 {
            assert(lower_text(core).len() == 0);
        }
        lemma_text_is_asked_for(s);
        assert(asks_for(filters.file_types@[k]@, core));
    }
    id as int
}

/// No more than `n` entries answer.
pub open spec fn at_most_answer(index: Index, query: Seq<u8>, filters: FilterOptions, n: int) -> bool {
    forall|ids: Seq<int>|
        #[trigger] ids.no_duplicates() && (forall|i: int|
            0 <= i < ids.len() ==> answers(index, query, filters, #[trigger] ids[i])) ==> ids.len()
            <= n
}

/// A search of a faithful index shows every entry that answers, where fewer results come than asked
/// for, or no more entries answer than results are asked for.
pub proof fn law_every_answer_is_shown<F: Fn(usize, usize, usize) -> u32>(
    index: Index,
    query: Seq<u8>,
    filters: FilterOptions,
    score: F,
    results: Seq<SearchResult>,
    id: int,
)
    requires
        index.faithful(),
        search_outcome(index, query, filters, score, results),
        answers(index, query, filters, id),
        results.len() < filters.max_results || at_most_answer(
            index,
            query,
            filters,
            filters.max_results as int,
        ),
    ensures
        exists|i: int|
            0 <= i < results.len() && is_result_of(#[trigger] results[i], index, id),
{
    let ids = law_results_are_the_best_answers(index, query, filters, score, results);
    if !ids.contains(id) {
        assert(is_outdone(id, results, index, query, filters, score, ids));
        let more = ids.push(id);
        assert(more.no_duplicates());
        assert forall|i: int| 0 <= i < more.len() implies answers(
            index,
            query,
            filters,
            #[trigger] more[i],
        ) by {
            if i < ids.len() {
                assert(more[i] == ids[i]);
            }
        }
    }
    let i = choose|i: int| 0 <= i < ids.len() && ids[i] == id;
    assert(is_result_of(results[i], index, ids[i]));
}

/// What the lists of a faithful index leave over: for a query of three bytes or more the entries
/// whose lower case names hold each three neighbouring bytes of it, and where types are named the
/// directories and the files of those types.
pub proof fn law_candidates_are_narrowed(
    index: Index,
    query: Seq<u8>,
    file_types: Seq<String>,
    id: int,
)
    requires
        index.faithful(),
        0 <= id < index.entries@.len(),
    ensures
        candidate(index, query, wanted_types(file_types), id) <==> {
            &&& forall|k: int|
                0 <= k && k + 2 < query.len() ==> has_window(
                    lower_name_at(index, id),
                    #[trigger] query[k],
                    query[k + 1],
                    query[k + 2],
                )
            &&& is_directory(index, id) || type_is_let_through(
                lower_name_at(index, id),
                file_types,
            )
        },
{
    let types = wanted_types(file_types);
    let lower = lower_name_at(index, id);
    let e = index.entries@[id];
    assert(index.records()[id].lower == lower);
    law_marks_are_the_lowest_bits(e.flags);
    lemma_wanted_types(lower, file_types);
    assert forall|k: int| 0 <= k && k + 2 < query.len() implies (has_window(
        lower,
        #[trigger] query[k],
        query[k + 1],
        query[k + 2],
    ) <==> list_at(index.trigram@, trigrams(query)[k]).contains(id as u32)) by {
        law_trigrams_are_those_of_the_windows(lower, query[k], query[k + 1], query[k + 2]);
    }
    if query.len() >= 3 {
        if posted_under_all(index.trigram@, query, id as u32) {
            assert forall|k: int| 0 <= k && k + 2 < query.len() implies has_window(
                lower,
                #[trigger] query[k],
                query[k + 1],
                query[k + 2],
            ) by {
                assert(list_at(index.trigram@, trigrams(query)[k]).contains(id as u32));
            }
        }
        if forall|k: int|
            0 <= k && k + 2 < query.len() ==> has_window(
                lower,
                #[trigger] query[k],
                query[k + 1],
                query[k + 2],
            ) {
            assert forall|k: int| 0 <= k < trigrams(query).len() implies list_at(
                index.trigram@,
                #[trigger] trigrams(query)[k],
            ).contains(id as u32) by {
                assert(has_window(lower, query[k], query[k + 1], query[k + 2]));
            }
        }
    }
    if !is_directory(index, id) && types.len() > 0 {
        let lists = extension_lists(index.ext_map);
        if listed_by_type(index, types, id) {
            let k = choose|k: int|
                0 <= k < types.len() && ids_at(lists, #[trigger] types[k]).contains(id as u32);
            assert(indexed_extension(lower, false) == Some(types[k]));
            assert(types.contains(types[k]));
        }
        if has_wanted_type(lower, types) && indexed_extension(lower, false) is Some {
            let ext = extension_of(lower)->Some_0;
            let k = choose|k: int| 0 <= k < types.len() && types[k] == ext;
            assert(ids_at(lists, types[k]).contains(id as u32));
        }
    }
}

/// The wanted extensions are the written types that come to something, in their order, each as the
/// bytes of what it comes to.
pub proof fn law_types_keep_their_order(texts: Seq<Seq<char>>)
    ensures
        non_empty_utf8(texts) == texts.filter(|t: Seq<char>| t.len() > 0).map_values(
            |t: Seq<char>| encode_utf8(t),
        ),
    decreases texts.len(),
{
    reveal(Seq::filter);
    let kept = |t: Seq<char>| t.len() > 0;
    let bytes = |t: Seq<char>| encode_utf8(t);
    if texts.len() > 0 {
        law_types_keep_their_order(texts.drop_last());
    }
    assert(non_empty_utf8(texts) =~= texts.filter(kept).map_values(bytes));
}

} // verus!
