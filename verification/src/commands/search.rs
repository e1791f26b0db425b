//! Searching the current index.

use crate::index::store::{Index, IndexStore};
use crate::search::engine::{search_outcome, SearchEngine};
use crate::search::guarantees::{
    answers, are_results_of, at_most_answer, is_outdone, is_result_of, law_every_answer_is_shown,
    law_results_are_the_best_answers, law_results_keep_to_the_size_limits, stands_above,
};
use crate::text::{
    all_white, law_trimming_takes_off_the_white_ends, lower_utf8, trim, trimmed, white_space,
};
use crate::types::filter::FilterOptions;
use crate::types::result::SearchResult;
use std::sync::Arc;
use vstd::prelude::*;

verus! {

/// What a query brings: nothing where it is blank or there is no index, else what the engine finds
/// for the query without the white space at its ends.
pub open spec fn command_outcome<F: Fn(usize, usize, usize) -> u32>(
    index: Option<Arc<Index>>,
    query: Seq<char>,
    filters: FilterOptions,
    score: F,
    results: Seq<SearchResult>,
) -> bool {
    match index {
        Some(index) if trimmed(query).len() > 0 => search_outcome(
            *index,
            lower_utf8(trimmed(query)),
            filters,
            score,
            results,
        ),
        _ => results.len() == 0,
    }
}

/// The index behind a shared reference.
pub open spec fn contents(index: Arc<Index>) -> Index {
    *index
}

/// The query is the text with nothing but white space around it, and the text itself starts and ends
/// with other characters.
pub open spec fn asks_with(query: Seq<char>, text: Seq<char>) -> bool {
    &&& text.len() > 0
    &&& !white_space(text[0])
    &&& !white_space(text.last())
    &&& exists|before: Seq<char>, after: Seq<char>|
        #[trigger] all_white(before) && #[trigger] all_white(after) && query == before + text
            + after
}

/// A query with a character that is no white space is answered, however short it is: every entry of
/// a faithful index that the filters let through and whose lower case name holds the lower case form
/// of the text asked with is shown, where fewer results come than asked for or no more entries
/// answer than results are asked for.
pub proof fn law_every_query_is_answered<F: Fn(usize, usize, usize) -> u32>(
    index: Arc<Index>,
    query: Seq<char>,
    filters: FilterOptions,
    score: F,
    results: Seq<SearchResult>,
    place: int,
) -> (text: Seq<char>)
    requires
        index.faithful(),
        command_outcome(Some(index), query, filters, score, results),
        0 <= place < query.len(),
        !white_space(query[place]),
    ensures
        asks_with(query, text),
        results.len() < filters.max_results || at_most_answer(
            *index,
            lower_utf8(text),
            filters,
            filters.max_results as int,
        ) ==> forall|id: int| #[trigger]
            answers(*index, lower_utf8(text), filters, id) ==> exists|i: int|
                0 <= i < results.len() && is_result_of(#[trigger] results[i], *index, id),
{
    let text = trimmed(query);
    let ends = law_trimming_takes_off_the_white_ends(query);
    assert(query == ends.0 + text + ends.1);
    assert(search_outcome(*index, lower_utf8(text), filters, score, results));
    if results.len() < filters.max_results || at_most_answer(
        contents(index),
        lower_utf8(text),
        filters,
        filters.max_results as int,
    ) {
        assert forall|id: int| #[trigger]
            answers(*index, lower_utf8(text), filters, id) implies exists|i: int|
            0 <= i < results.len() && is_result_of(#[trigger] results[i], *index, id) by {
            law_every_answer_is_shown(
                contents(index),
                lower_utf8(text),
                filters,
                score,
                results,
                id,
            );
        }
    }
    text
}

/// What a search shows of a faithful index are the best of the entries that answer the text asked
/// with, best first and each once.
pub proof fn law_only_answers_are_shown<F: Fn(usize, usize, usize) -> u32>(
    index: Arc<Index>,
    query: Seq<char>,
    text: Seq<char>,
    filters: FilterOptions,
    score: F,
    results: Seq<SearchResult>,
) -> (ids: Seq<int>)
    requires
        index.faithful(),
        command_outcome(Some(index), query, filters, score, results),
        asks_with(query, text),
    ensures
        results.len() <= filters.max_results,
        are_results_of(results, *index, lower_utf8(text), filters, score, ids),
        forall|i: int, j: int|
            0 <= i < j < ids.len() ==> stands_above(
                (#[trigger] results[i]).score->Some_0,
                ids[i],
                (#[trigger] results[j]).score->Some_0,
                ids[j],
            ),
        forall|id: int| #[trigger]
            answers(*index, lower_utf8(text), filters, id) && !ids.contains(id) ==> is_outdone(
                id,
                results,
                *index,
                lower_utf8(text),
                filters,
                score,
                ids,
            ),
{
    lemma_text_asked_with(query, text);
    law_results_are_the_best_answers(contents(index), lower_utf8(text), filters, score, results)
}

/// White space at the ends of a query makes no difference: the text asked with is the trimmed query.
proof fn lemma_text_asked_with(query: Seq<char>, text: Seq<char>)
    requires
        asks_with(query, text),
    ensures
        trimmed(query) == text,
{
    let (before, after) = choose|before: Seq<char>, after: Seq<char>|
        #[trigger] all_white(before) && #[trigger] all_white(after) && query == before + text
            + after;
    let ends = law_trimming_takes_off_the_white_ends(query);
    let core = trimmed(query);
    let n = before.len() as int;
    assert(query[n] == text[0]);
    assert(!all_white(query));
    assert(query[n + text.len() - 1] == text.last());
    assert(query[ends.0.len() as int] == core[0]);
    assert(query[ends.0.len() + core.len() - 1] == core.last());
    if ends.0.len() < n {
        assert(query[ends.0.len() as int] == before[ends.0.len() as int]);
    }
    if n < ends.0.len() {
        assert(query[n] == ends.0[n]);
    }
    if ends.1.len() < after.len() {
        let k = ends.0.len() + core.len() - 1;
        assert(query[k] == after[k - n - text.len()]);
    }
    if after.len() < ends.1.len() {
        let k = n + text.len() - 1;
        assert(query[k] == ends.1[k - ends.0.len() - core.len()]);
    }
    assert(text =~= query.subrange(n, n + text.len()));
    assert(core =~= query.subrange(ends.0.len() as int, (ends.0.len() + core.len()) as int));
}

/// Whatever is searched and however it is asked, no file that is shown is smaller than the least size
/// or larger than the largest; each limit holds whether or not the other is given.
pub proof fn law_shown_files_keep_to_the_size_limits<F: Fn(usize, usize, usize) -> u32>(
    index: Option<Arc<Index>>,
    query: Seq<char>,
    filters: FilterOptions,
    score: F,
    results: Seq<SearchResult>,
    i: int,
)
    requires
        command_outcome(index, query, filters, score, results),
        0 <= i < results.len(),
        !results[i].is_dir,
    ensures
        filters.min_size matches Some(least) ==> least <= results[i].size,
        filters.max_size matches Some(most) ==> results[i].size <= most,
{
    if let Some(index) = index {
        law_results_keep_to_the_size_limits(
            contents(index),
            lower_utf8(trimmed(query)),
            filters,
            score,
            results,
        );
    }
}

/// Nothing is shown for a blank query, nor where there is no index.
pub proof fn law_blank_queries_bring_nothing<F: Fn(usize, usize, usize) -> u32>(
    index: Option<Arc<Index>>,
    query: Seq<char>,
    filters: FilterOptions,
    score: F,
    results: Seq<SearchResult>,
)
    requires
        command_outcome(index, query, filters, score, results),
        index is None || forall|i: int| 0 <= i < query.len() ==> white_space(#[trigger] query[i]),
    ensures
        results.len() == 0,
{
    law_trimming_takes_off_the_white_ends(query);
}

/// Searches an index, where there is one.
pub fn search_index<F>(
    index: Option<Arc<Index>>,
    query: &str,
    filters: &FilterOptions,
    score: F,
) -> (results: Vec<SearchResult>) where F: Fn(usize, usize, usize) -> u32
    requires
        index matches Some(i) ==> i.well_formed(),
        forall|name_len: usize, query_len: usize, match_pos: usize|
            match_pos + query_len <= name_len ==> #[trigger] score.requires(
                (name_len, query_len, match_pos),
            ),
    ensures
        command_outcome(index, query@, *filters, score, results@),
{
    let q = trim(query);
    if q.is_empty() {
        return Vec::new();
    }
    match index {
        Some(index) => SearchEngine::search(&index, q, filters, score),
        None => Vec::new(),
    }
}

/// Searches the current index, which is one that the store was given, or none where it was made
/// without one. In an index that is not well formed nothing is looked for.
pub fn search<F>(store: &IndexStore, query: &str, filters: &FilterOptions, score: F) -> (results: Vec<
    SearchResult,
>) where F: Fn(usize, usize, usize) -> u32
    requires
        forall|name_len: usize, query_len: usize, match_pos: usize|
            match_pos + query_len <= name_len ==> #[trigger] score.requires(
                (name_len, query_len, match_pos),
            ),
    ensures
        exists|index: Option<Arc<Index>>|
            {
                &&& #[trigger] store.was_given(index)
                &&& match index {
                    Some(i) if !i.well_formed() => results@.len() == 0,
                    _ => command_outcome(index, query@, *filters, score, results@),
                }
            },
{
    match store.load_checked() {
        Some((index, sound)) => {
            assert(store.was_given(Some(index)));
            if sound {
                search_index(Some(index), query, filters, score)
            } else {
                Vec::new()
            }
        },
        None => {
            assert(store.was_given(None));
            search_index(None, query, filters, score)
        },
    }
}

} // verus!
