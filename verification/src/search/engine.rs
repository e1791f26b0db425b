//! The search itself: candidates from the index, a check of each, and the best of them.

use crate::index::entry::{marks_dir, Entry};
use crate::index::store::{in_arena, record_of, Index, Record};
use crate::parallel::{mapped, par_filter_map, somes};
use crate::search::candidates::candidate;
use crate::search::filters::{bytes_of, has_type, match_of, type_filters, wanted_types};
use crate::search::ranking::{is_top_k, lemma_top_is_ranked};
use crate::search::substring::{find_first, lemma_first_from, needle_of, new_finder};
use crate::sorting::{lemma_push_contains, strictly_ascending, Keyed};
use crate::text::{lower_utf8, shown_string, shown_text, to_lowercase};
use crate::types::filter::FilterOptions;
use crate::types::result::SearchResult;
use memchr::memmem::Finder;
use std::sync::Arc;
use vstd::prelude::*;

verus! {

/// The text that a time of so many seconds since 1970 takes under a format description, where it
/// can be written so.
pub uninterp spec fn timestamp_text(secs: i64, pattern: Seq<char>) -> Option<Seq<char>>;

/// `time::OffsetDateTime::from_unix_timestamp` and its `format` with the description that
/// `time::format_description::parse_borrowed` reads from `pattern`: the text depends on the two
/// arguments alone; there is none where one of the three calls fails.
#[verifier::external_body]
fn format_timestamp(secs: i64, pattern: &str) -> (text: Option<String>)
    ensures
        match text {
            Some(t) => timestamp_text(secs, pattern@) == Some(t@),
            None => timestamp_text(secs, pattern@) is None,
        },
{
    let items = time::format_description::parse_borrowed::<1>(pattern).ok()?;
    time::OffsetDateTime::from_unix_timestamp(secs).ok()?.format(&items).ok()
}

/// A match: which entry, how long its lower case name is, and where the query stands in it.
#[derive(Clone, Copy, Debug, PartialEq, Eq, Structural)]
pub struct Hit {
    pub id: usize,
    pub name_len: usize,
    pub match_pos: usize,
}

/// The match that an entry makes, if it makes one.
pub open spec fn hit_of(
    records: Seq<Record>,
    filters: FilterOptions,
    types: Seq<Seq<u8>>,
    query: Seq<u8>,
    id: usize,
) -> Option<Hit> {
    match match_of(records[id as int], filters, types, query) {
        Some(p) => Some(
            Hit { id, name_len: records[id as int].lower.len() as usize, match_pos: p as usize },
        ),
        None => None,
    }
}

/// `hits` are the matches that the entries `ids` make, in the order of the entries.
pub open spec fn hits_among(
    records: Seq<Record>,
    filters: FilterOptions,
    types: Seq<Seq<u8>>,
    query: Seq<u8>,
    ids: Seq<usize>,
    hits: Seq<Hit>,
) -> bool {
    &&& forall|i: int, j: int|
        0 <= i < j < hits.len() ==> (#[trigger] hits[i]).id < (#[trigger] hits[j]).id
    &&& forall|i: int|
        0 <= i < hits.len() ==> ids.contains((#[trigger] hits[i]).id) && hit_of(
            records,
            filters,
            types,
            query,
            hits[i].id,
        ) == Some(hits[i])
    &&& forall|id: usize| #[trigger]
        ids.contains(id) && hit_of(records, filters, types, query, id) is Some ==> exists|i: int|
            0 <= i < hits.len() && (#[trigger] hits[i]).id == id
}

/// `hits` are the matches among the candidates, in ascending order of their ids.
pub open spec fn all_hits(
    index: Index,
    query: Seq<u8>,
    filters: FilterOptions,
    types: Seq<Seq<u8>>,
    hits: Seq<Hit>,
) -> bool {
    &&& forall|i: int, j: int|
        0 <= i < j < hits.len() ==> (#[trigger] hits[i]).id < (#[trigger] hits[j]).id
    &&& forall|i: int|
        0 <= i < hits.len() ==> candidate(index, query, types, (#[trigger] hits[i]).id as int)
            && hit_of(index.records(), filters, types, query, hits[i].id) == Some(hits[i])
    &&& forall|id: usize|
        candidate(index, query, types, id as int) && hit_of(
            index.records(),
            filters,
            types,
            query,
            id,
        ) is Some ==> #[trigger] hit_with_id(hits, id as int)
}

/// One of the matches is that of this entry.
pub open spec fn hit_with_id(hits: Seq<Hit>, id: int) -> bool {
    exists|i: int| 0 <= i < hits.len() && (#[trigger] hits[i]).id == id
}

/// Keeping what a look at each entry gave leaves the matches.
proof fn lemma_hits_among(
    records: Seq<Record>,
    filters: FilterOptions,
    types: Seq<Seq<u8>>,
    query: Seq<u8>,
    ids: Seq<usize>,
)
    requires
        strictly_ascending(ids),
    ensures
        hits_among(
            records,
            filters,
            types,
            query,
            ids,
            somes(Seq::new(ids.len(), |i: int| hit_of(records, filters, types, query, ids[i]))),
        ),
    decreases ids.len(),
{
    let given = Seq::new(ids.len(), |i: int| hit_of(records, filters, types, query, ids[i]));
    let hits = somes(given);
    if ids.len() > 0 {
        let rest = ids.drop_last();
        let fewer = Seq::new(rest.len(), |i: int| hit_of(records, filters, types, query, rest[i]));
        let before = somes(fewer);
        assert(given.drop_last() =~= fewer);
        lemma_hits_among(records, filters, types, query, rest);
        assert(ids =~= rest.push(ids.last()));
        assert forall|x: usize| #[trigger] ids.contains(x) <==> rest.contains(x) || x
            == ids.last() by {
            lemma_push_contains(rest, ids.last(), x);
        }
        assert forall|i: int| 0 <= i < before.len() implies (#[trigger] before[i]).id
            < ids.last() by {
            let k = choose|k: int| 0 <= k < rest.len() && rest[k] == before[i].id;
            assert(ids[k].key() < ids[ids.len() - 1].key());
        }
        assert forall|id: usize| #[trigger]
            ids.contains(id) && hit_of(records, filters, types, query, id) is Some implies exists|
            i: int,
        | 0 <= i < hits.len() && (#[trigger] hits[i]).id == id by {
            if id == ids.last() {
                assert(hits[hits.len() - 1].id == id);
            } else {
                assert(rest.contains(id));
                let i = choose|i: int| 0 <= i < before.len() && (#[trigger] before[i]).id == id;
                assert(hits[i].id == id);
            }
        }
    }
}

/// The text of a time of so many seconds since 1970.
pub open spec fn time_text(secs: u64) -> Option<Seq<char>> {
    if secs <= i64::MAX {
        timestamp_text(secs as i64, "[year]-[month]-[day] [hour]:[minute]"@)
    } else {
        None
    }
}

/// The result shows the record, its key, and the text of its time where the time is known.
pub open spec fn shows(
    result: SearchResult,
    r: Record,
    key: u32,
    time: Option<Seq<char>>,
) -> bool {
    &&& result.name@ == shown_text(r.name)
    &&& result.path@ == shown_text(r.path)
    &&& result.size == r.size
    &&& result.modified@ == match time {
        Some(t) if r.modified > 0 => t,
        _ => Seq::<char>::empty(),
    }
    &&& result.is_dir == marks_dir(r.flags)
    &&& result.score == Some(key)
}

/// The result shows the ranked match.
pub open spec fn shows_in(
    result: SearchResult,
    records: Seq<Record>,
    ranked: (usize, u32),
) -> bool {
    let r = records[ranked.0 as int];
    shows(result, r, ranked.1, time_text(r.modified))
}

/// The results show the ranked matches, one by one.
pub open spec fn all_shown(
    results: Seq<SearchResult>,
    records: Seq<Record>,
    top: Seq<(usize, u32)>,
) -> bool {
    &&& results.len() == top.len()
    &&& forall|i: int| 0 <= i < top.len() ==> shows_in(#[trigger] results[i], records, top[i])
}

/// The pair names the entry of the match and a key that `score` gives it.
pub open spec fn ranks<F: Fn(usize, usize, usize) -> u32>(
    score: F,
    query_len: usize,
    hit: Hit,
    ranked: (usize, u32),
) -> bool {
    &&& ranked.0 == hit.id
    &&& score.ensures((hit.name_len, query_len, hit.match_pos), ranked.1)
}

/// The pairs are those of the matches, one by one.
pub open spec fn ranked_by<F: Fn(usize, usize, usize) -> u32>(
    score: F,
    query_len: usize,
    hits: Seq<Hit>,
    ranked: Seq<(usize, u32)>,
) -> bool {
    &&& ranked.len() == hits.len()
    &&& forall|i: int|
        0 <= i < ranked.len() ==> ranks(score, query_len, hits[i], #[trigger] ranked[i])
}

/// The results show the best of the matches, best first.
pub open spec fn shows_best<F: Fn(usize, usize, usize) -> u32>(
    index: Index,
    query: Seq<u8>,
    filters: FilterOptions,
    types: Seq<Seq<u8>>,
    score: F,
    results: Seq<SearchResult>,
) -> bool {
    exists|hits: Seq<Hit>, ranked: Seq<(usize, u32)>, top: Seq<(usize, u32)>|
        {
            &&& all_hits(index, query, filters, types, hits)
            &&& #[trigger] ranked_by(score, query.len() as usize, hits, ranked)
            &&& #[trigger] is_top_k(ranked, filters.max_results as int, top)
            &&& all_shown(results, index.records(), top)
        }
}

/// What a search for a lower case query brings.
pub open spec fn search_outcome<F: Fn(usize, usize, usize) -> u32>(
    index: Index,
    query: Seq<u8>,
    filters: FilterOptions,
    score: F,
    results: Seq<SearchResult>,
) -> bool {
    shows_best(index, query, filters, wanted_types(filters.file_types@), score, results)
}

/// The engine that answers searches.
pub struct SearchEngine;

impl SearchEngine {
    /// Looks at one entry: where the query stands in its name, if the entry is let through.
    fn match_entry(
        index: &Index,
        entry: &Entry,
        finder: &Finder<'_>,
        filters: &FilterOptions,
        type_filters: &[Vec<u8>],
    ) -> (place: Option<usize>)
        requires
            in_arena(*entry, index.arena@.len() as int),
        ensures
            match place {
                Some(p) => match_of(
                    record_of(*entry, index.arena@),
                    *filters,
                    bytes_of(type_filters@),
                    needle_of(*finder),
                ) == Some(p as int),
                None => match_of(
                    record_of(*entry, index.arena@),
                    *filters,
                    bytes_of(type_filters@),
                    needle_of(*finder),
                ) is None,
            },
    {
        if !filters.include_hidden && entry.is_hidden() {
            return None;
        }
        if !entry.is_dir() {
            if let Some(min_size) = filters.min_size {
                if entry.size < min_size {
                    return None;
                }
            }
            if let Some(max_size) = filters.max_size {
                if entry.size > max_size {
                    return None;
                }
            }
        }
        let name_lower = index.entry_name_lower(entry);
        let found = find_first(finder, name_lower);
        proof {
            lemma_first_from(name_lower@, needle_of(*finder), 0);
        }
        if found.is_some() && type_filters.len() > 0 && !entry.is_dir() && !has_type(
            name_lower,
            type_filters,
        ) {
            return None;
        }
        found
    }

    /// The matches of a query, in ascending order of their ids.
    pub fn find_matches(
        index: &Index,
        q_bytes: &[u8],
        filters: &FilterOptions,
        type_filters: &[Vec<u8>],
    ) -> (hits: Vec<Hit>)
        requires
            index.well_formed(),
        ensures
            all_hits(*index, q_bytes@, *filters, bytes_of(type_filters@), hits@),
    {
        let built = new_finder(q_bytes);
        let finder = &built;
        let candidates = Self::collect_candidates(index, q_bytes, type_filters);
        let ghost ids = candidates@;
        let ghost types = bytes_of(type_filters@);
        assert forall|i: int| 0 <= i < ids.len() implies (#[trigger] ids[i])
            < index.entries@.len() by {
            assert(ids.contains(ids[i]));
        }
        let look = |id: usize| -> (hit: Option<Hit>)
            requires
                index.well_formed(),
                id < index.entries@.len(),
            ensures
                hit == hit_of(
                    index.records(),
                    *filters,
                    bytes_of(type_filters@),
                    needle_of(*finder),
                    id,
                ),
            {
                let entry = &index.entries[id];
                assert(in_arena(*entry, index.arena@.len() as int));
                match Self::match_entry(index, entry, finder, filters, type_filters) {
                    Some(match_pos) => {
                        let name_len = entry.name_lower_len as usize;
                        Some(Hit { id, name_len, match_pos })
                    },
                    None => None,
                }
            };
        let hits = par_filter_map(candidates, look);
        proof {
            let given = choose|given: Seq<Option<Hit>>|
                mapped(look, ids, given) && hits@ == #[trigger] somes(given);
            assert(given =~= Seq::new(
                ids.len(),
                |i: int| hit_of(index.records(), *filters, types, q_bytes@, ids[i]),
            ));
            lemma_hits_among(index.records(), *filters, types, q_bytes@, ids);
            let records = index.records();
            assert forall|i: int| 0 <= i < hits@.len() implies candidate(
                *index,
                q_bytes@,
                types,
                (#[trigger] hits@[i]).id as int,
            ) && hit_of(records, *filters, types, q_bytes@, hits@[i].id) == Some(hits@[i]) by {
                assert(ids.contains(hits@[i].id));
            }
            assert forall|id: usize|
                candidate(*index, q_bytes@, types, id as int) && hit_of(
                    records,
                    *filters,
                    types,
                    q_bytes@,
                    id,
                ) is Some implies #[trigger] hit_with_id(hits@, id as int) by {
                assert(ids.contains(id));
            }
        }
        hits
    }

    /// A time of so many seconds since 1970, in UTC, to the minute. There is no text where the year
    /// is out of range.
    pub fn format_time(secs: u64) -> (text: Option<String>)
        ensures
            match text {
                Some(t) => time_text(secs) == Some(t@),
                None => time_text(secs) is None,
            },
    {
        if secs <= i64::MAX as u64 {
            format_timestamp(secs as i64, "[year]-[month]-[day] [hour]:[minute]")
        } else {
            None
        }
    }

    /// What is shown of an entry, given the text for the time of its last change.
    pub fn result_for(index: &Index, id: usize, key: u32, time: Option<String>) -> (result:
        SearchResult)
        requires
            index.well_formed(),
            id < index.entries@.len(),
        ensures
            shows(
                result,
                index.records()[id as int],
                key,
                match time {
                    Some(t) => Some(t@),
                    None => None,
                },
            ),
    {
        let entry = &index.entries[id];
        assert(index.records()[id as int] == record_of(*entry, index.arena@));
        assert(in_arena(*entry, index.arena@.len() as int));
        let name = index.get_bytes(entry.name_off, entry.name_len as usize);
        let path = index.get_bytes(entry.path_off, entry.path_len as usize);
        let modified = match time {
            Some(t) if entry.modified > 0 => t,
            _ => String::new(),
        };
        SearchResult {
            name: shown_string(name),
            path: shown_string(path),
            size: entry.size,
            modified,
            is_dir: entry.is_dir(),
            score: Some(key),
        }
    }

    /// Finds the entries whose names hold `query`, whatever the case, and that the filters let
    /// through. Gives those with the largest keys first, and no more than asked for. The key of a
    /// match comes from `score`, which is given the length of the name, the length of the query and
    /// the place of the match, all in bytes of the lower case texts.
    pub fn search<F>(index: &Arc<Index>, query: &str, filters: &FilterOptions, score: F) -> (results:
        Vec<SearchResult>) where F: Fn(usize, usize, usize) -> u32
        requires
            index.well_formed(),
            forall|name_len: usize, query_len: usize, match_pos: usize|
                match_pos + query_len <= name_len ==> #[trigger] score.requires(
                    (name_len, query_len, match_pos),
                ),
        ensures
            search_outcome(**index, lower_utf8(query@), *filters, score, results@),
    {
        let q_lower = to_lowercase(query);
        let types = type_filters(&filters.file_types);
        Self::search_lowered(
            index,
            q_lower.as_str().as_bytes(),
            types.as_slice(),
            filters,
            score,
        )
    }

    /// Searches for a query in lower case and for extensions without dots in lower case. The file
    /// types of the filters are not looked at.
    pub fn search_lowered<F>(
        index: &Index,
        q_bytes: &[u8],
        type_filters: &[Vec<u8>],
        filters: &FilterOptions,
        score: F,
    ) -> (results: Vec<SearchResult>) where F: Fn(usize, usize, usize) -> u32
        requires
            index.well_formed(),
            forall|name_len: usize, query_len: usize, match_pos: usize|
                match_pos + query_len <= name_len ==> #[trigger] score.requires(
                    (name_len, query_len, match_pos),
                ),
        ensures
            shows_best(
                *index,
                q_bytes@,
                *filters,
                bytes_of(type_filters@),
                score,
                results@,
            ),
    {
        let ghost types = bytes_of(type_filters@);
        let ghost records = index.records();
        let hits = Self::find_matches(index, q_bytes, filters, type_filters);
        let mut scored: Vec<(usize, u32)> = Vec::with_capacity(hits.len());
        let mut i: usize = 0;
        while i < hits.len()
            invariant
                i <= hits@.len(),
                index.well_formed(),
                records == index.records(),
                all_hits(*index, q_bytes@, *filters, types, hits@),
                forall|name_len: usize, query_len: usize, match_pos: usize|
                    match_pos + query_len <= name_len ==> #[trigger] score.requires(
                        (name_len, query_len, match_pos),
                    ),
                ranked_by(score, q_bytes@.len() as usize, hits@.take(i as int), scored@),
            decreases hits@.len() - i,
        {
            let hit = hits[i];
            proof {
                assert(candidate(*index, q_bytes@, types, hit.id as int));
                assert(hit_of(records, *filters, types, q_bytes@, hit.id) == Some(hit));
                assert(in_arena(index.entries@[hit.id as int], index.arena@.len() as int));
                lemma_first_from(records[hit.id as int].lower, q_bytes@, 0);
            }
            let key: u32 = score(hit.name_len, q_bytes.len(), hit.match_pos);
            let ghost before = scored@;
            scored.push((hit.id, key));
            assert(ranked_by(score, q_bytes@.len() as usize, hits@.take(i + 1), scored@)) by {
                assert forall|j: int| 0 <= j < i + 1 implies ranks(
                    score,
                    q_bytes@.len() as usize,
                    hits@.take(i + 1)[j],
                    #[trigger] scored@[j],
                ) by {
                    if j < i {
                        assert(ranks(
                            score,
                            q_bytes@.len() as usize,
                            hits@.take(i as int)[j],
                            before[j],
                        ));
                    }
                }
            }
            i += 1;
        }
        assert(hits@.take(i as int) =~= hits@);
        let ghost ranked = scored@;
        let top = Self::top_k(scored, filters.max_results as usize);
        proof {
            lemma_top_is_ranked(ranked, filters.max_results as int, top@);
        }
        let mut results: Vec<SearchResult> = Vec::with_capacity(top.len());
        let mut n: usize = 0;
        while n < top.len()
            invariant
                n <= top@.len(),
                index.well_formed(),
                records == index.records(),
                all_hits(*index, q_bytes@, *filters, types, hits@),
                ranked_by(score, q_bytes@.len() as usize, hits@, ranked),
                forall|j: int| 0 <= j < top@.len() ==> ranked.contains(#[trigger] top@[j]),
                results@.len() == n,
                forall|j: int|
                    0 <= j < n ==> shows_in(#[trigger] results@[j], records, top@[j]),
            decreases top@.len() - n,
        {
            let (id, key) = top[n];
            proof {
                assert(ranked.contains(top@[n as int]));
                let k = choose|k: int| 0 <= k < ranked.len() && ranked[k] == top@[n as int];
                assert(ranks(score, q_bytes@.len() as usize, hits@[k], ranked[k]));
                assert(candidate(*index, q_bytes@, types, hits@[k].id as int));
            }
            let time = Self::format_time(index.entries[id].modified);
            results.push(Self::result_for(index, id, key, time));
            n += 1;
        }
        assert(all_shown(results@, records, top@));
        results
    }
}

} // verus!
