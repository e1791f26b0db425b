//! What becomes of the walked entries, told on their parts.

use crate::commands::indexing::{
    all_taken_in, data_lists, joined, law_drives_join_as_one, taken_in, DriveData,
};
use crate::commands::search::{asks_with, command_outcome, contents, law_only_answers_are_shown};
use crate::index::builder::{
    finished, items_fit, law_index_of_listed, lemma_with_all_joined, text_size, Gathered, Listed,
};
use crate::index::entry::{law_marks_are_the_lowest_bits, lemma_flags_read_back};
use crate::index::store::{
    is_directory, is_hidden_entry, lower_name_at, name_at, path_at, Index,
};
use crate::platform::walker::{all_listed, listed, WalkedEntry};
use crate::search::guarantees::{
    answers, holds, is_outdone, is_result_of, type_is_let_through,
};
use crate::text::{law_text_is_shown_as_it_is, lower_utf8};
use crate::types::filter::FilterOptions;
use crate::types::result::SearchResult;
use std::sync::Arc;
use vstd::prelude::*;
use vstd::utf8::{encode_utf8, encode_utf8_decode_utf8, encode_utf8_valid_utf8};

verus! {

/// The entries that a walk through a drive came upon; none where the drive could not be read.
pub open spec fn walked_in(data: Result<DriveData, String>) -> Seq<WalkedEntry> {
    match data {
        Ok(DriveData::Walker(entries)) => entries@,
        _ => Seq::empty(),
    }
}

/// The entries that the walks through all drives came upon, drive by drive.
pub open spec fn all_walked(per_drive: Seq<Result<DriveData, String>>) -> Seq<WalkedEntry>
    decreases per_drive.len(),
{
    if per_drive.len() == 0 {
        Seq::empty()
    } else {
        all_walked(per_drive.drop_last()) + walked_in(per_drive.last())
    }
}

/// The bytes that the names, the lower case names and the paths of walked entries take.
pub open spec fn walked_size(entries: Seq<WalkedEntry>) -> nat
    decreases entries.len(),
{
    if entries.len() == 0 {
        0
    } else {
        let e = entries.last();
        walked_size(entries.drop_last()) + encode_utf8(e.0@).len() + lower_utf8(e.0@).len()
            + encode_utf8(e.1@).len()
    }
}

/// The walked entries fit: all texts together within 32-bit offsets, and every name within 16-bit
/// lengths.
pub open spec fn walked_fit(entries: Seq<WalkedEntry>) -> bool {
    &&& entries.len() <= u32::MAX
    &&& walked_size(entries) <= u32::MAX
    &&& forall|i: int|
        0 <= i < entries.len() ==> encode_utf8((#[trigger] entries[i]).0@).len() <= 0xffff
            && lower_utf8(entries[i].0@).len() <= 0xffff
}

/// The index holds a walked entry at this place: name, lower case name and path, whether it is a
/// directory, whether it is hidden, size, and time of the last change.
pub open spec fn holds_walked(index: Index, id: int, entry: WalkedEntry) -> bool {
    &&& 0 <= id < index.entries@.len()
    &&& name_at(index, id) == encode_utf8(entry.0@)
    &&& lower_name_at(index, id) == lower_utf8(entry.0@)
    &&& path_at(index, id) == encode_utf8(entry.1@)
    &&& is_directory(index, id) == entry.2
    &&& is_hidden_entry(index, id) == entry.3
    &&& index.entries@[id].size == entry.4
    &&& index.entries@[id].modified == entry.5
}

/// A walked entry among those that an index was made of stands in it as it was walked.
proof fn lemma_held(items: Seq<Listed>, index: Index, id: int, entry: WalkedEntry)
    requires
        items_fit(items),
        finished(Gathered::nothing().with_all(items), index),
        0 <= id < items.len(),
        items[id] == listed(entry),
    ensures
        index.faithful(),
        index.entries@.len() == items.len(),
        holds_walked(index, id, entry),
{
    law_index_of_listed(items, index);
    assert(index.records().len() == index.entries@.len());
    let r = index.records()[id];
    assert(r == items[id].record());
    lemma_flags_read_back(entry.2, entry.3);
    law_marks_are_the_lowest_bits(r.flags);
    assert(name_at(index, id) == r.name);
    assert(lower_name_at(index, id) == r.lower);
    assert(path_at(index, id) == r.path);
}

proof fn lemma_walked_size(entries: Seq<WalkedEntry>)
    ensures
        text_size(all_listed(entries)) == walked_size(entries),
    decreases entries.len(),
{
    if entries.len() > 0 {
        lemma_walked_size(entries.drop_last());
        assert(all_listed(entries).drop_last() =~= all_listed(entries.drop_last()));
        assert(all_listed(entries).last() == listed(entries.last()));
    }
}

proof fn lemma_walks_taken_in(per_drive: Seq<Result<DriveData, String>>)
    requires
        forall|d: int|
            0 <= d < per_drive.len() ==> !((#[trigger] per_drive[d]) matches Ok(
                DriveData::Builder(_),
            )),
    ensures
        all_taken_in(per_drive) == Gathered::nothing().with_all(all_listed(all_walked(per_drive))),
    decreases per_drive.len(),
{
    if per_drive.len() > 0 {
        let before = per_drive.drop_last();
        let last = per_drive[per_drive.len() - 1];
        assert forall|d: int| 0 <= d < before.len() implies !((#[trigger] before[d]) matches Ok(
            DriveData::Builder(_),
        )) by {
            assert(before[d] == per_drive[d]);
        }
        lemma_walks_taken_in(before);
        lemma_with_all_joined(
            Gathered::nothing(),
            all_listed(all_walked(before)),
            all_listed(walked_in(last)),
        );
        assert(all_listed(all_walked(per_drive)) =~= all_listed(all_walked(before)) + all_listed(
            walked_in(last),
        ));
        if last is Err {
            assert(all_listed(walked_in(last)) =~= Seq::<Listed>::empty());
        }
        assert(all_taken_in(per_drive) == taken_in(all_taken_in(before), last));
    }
}

/// An index of walked drives holds every walked entry that fits, in the order of the walks and
/// nothing else: each with its own name, path, size and time, and with its own two marks.
pub proof fn law_walked_entries_are_held(
    per_drive: Seq<Result<DriveData, String>>,
    index: Index,
)
    requires
        forall|d: int|
            0 <= d < per_drive.len() ==> !((#[trigger] per_drive[d]) matches Ok(
                DriveData::Builder(_),
            )),
        walked_fit(all_walked(per_drive)),
        finished(all_taken_in(per_drive), index),
    ensures
        index.faithful(),
        index.entries@.len() == all_walked(per_drive).len(),
        forall|i: int|
            0 <= i < all_walked(per_drive).len() ==> holds_walked(
                index,
                i,
                #[trigger] all_walked(per_drive)[i],
            ),
{
    let entries = all_walked(per_drive);
    let items = all_listed(entries);
    lemma_walks_taken_in(per_drive);
    lemma_walked_size(entries);
    assert forall|i: int| 0 <= i < items.len() implies (#[trigger] items[i]).name.len() <= 0xffff
        && items[i].lower.len() <= 0xffff by {
        assert(encode_utf8(entries[i].0@).len() <= 0xffff);
    }
    law_index_of_listed(items, index);
    assert(index.records().len() == index.entries@.len());
    assert forall|i: int| 0 <= i < entries.len() implies holds_walked(
        index,
        i,
        #[trigger] entries[i],
    ) by {
        lemma_held(items, index, i, entries[i]);
    }
}

/// The entries of a drive stand behind those of the drives before it.
proof fn lemma_joined_part(parts: Seq<Seq<Listed>>, d: int, i: int)
    requires
        0 <= d < parts.len(),
        0 <= i < parts[d].len(),
    ensures
        joined(parts.take(d)).len() + i < joined(parts).len(),
        joined(parts)[joined(parts.take(d)).len() + i] == parts[d][i],
    decreases parts.len(),
{
    let before = parts.drop_last();
    if d == parts.len() - 1 {
        assert(parts.take(d) =~= before);
    } else {
        lemma_joined_part(before, d, i);
        assert(before.take(d) =~= parts.take(d));
    }
}

/// However the other drives were read, an index that they all fit in holds every entry of a walked
/// drive, behind the entries of the drives before it.
pub proof fn law_walked_drive_is_held(
    per_drive: Seq<Result<DriveData, String>>,
    parts: Seq<Seq<Listed>>,
    index: Index,
    d: int,
    i: int,
)
    requires
        parts.len() == per_drive.len(),
        forall|k: int|
            0 <= k < parts.len() ==> data_lists(#[trigger] per_drive[k], #[trigger] parts[k]),
        items_fit(joined(parts)),
        finished(all_taken_in(per_drive), index),
        0 <= d < per_drive.len(),
        0 <= i < walked_in(per_drive[d]).len(),
    ensures
        index.faithful(),
        holds_walked(index, joined(parts.take(d)).len() + i, walked_in(per_drive[d])[i]),
{
    law_drives_join_as_one(per_drive, parts);
    assert(data_lists(per_drive[d], parts[d]));
    lemma_joined_part(parts, d, i);
    lemma_held(
        joined(parts),
        index,
        joined(parts.take(d)).len() + i,
        walked_in(per_drive[d])[i],
    );
}

/// The result shows a walked entry.
pub open spec fn shows_walked(result: SearchResult, entry: WalkedEntry) -> bool {
    &&& result.name@ == entry.0@
    &&& result.path@ == entry.1@
    &&& result.is_dir == entry.2
    &&& result.size == entry.4
    &&& entry.5 == 0 ==> result.modified@.len() == 0
}

/// What was walked can be found: a query shows every walked entry that the filters let through and
/// whose name in lower case holds the lower case form of the text asked with, where fewer results
/// come than asked for.
pub proof fn law_walked_entries_are_found<F: Fn(usize, usize, usize) -> u32>(
    per_drive: Seq<Result<DriveData, String>>,
    index: Arc<Index>,
    query: Seq<char>,
    text: Seq<char>,
    filters: FilterOptions,
    score: F,
    results: Seq<SearchResult>,
    i: int,
)
    requires
        forall|d: int|
            0 <= d < per_drive.len() ==> !((#[trigger] per_drive[d]) matches Ok(
                DriveData::Builder(_),
            )),
        walked_fit(all_walked(per_drive)),
        finished(all_taken_in(per_drive), *index),
        command_outcome(Some(index), query, filters, score, results),
        asks_with(query, text),
        results.len() < filters.max_results,
        0 <= i < all_walked(per_drive).len(),
        holds(lower_utf8(all_walked(per_drive)[i].0@), lower_utf8(text)),
        all_walked(per_drive)[i].3 ==> filters.include_hidden,
        !all_walked(per_drive)[i].2 ==> {
            &&& filters.min_size matches Some(least) ==> least <= all_walked(per_drive)[i].4
            &&& filters.max_size matches Some(most) ==> all_walked(per_drive)[i].4 <= most
            &&& type_is_let_through(
                lower_utf8(all_walked(per_drive)[i].0@),
                filters.file_types@,
            )
        },
    ensures
        exists|r: int|
            0 <= r < results.len() && shows_walked(
                #[trigger] results[r],
                all_walked(per_drive)[i],
            ),
{
    let entry = all_walked(per_drive)[i];
    law_walked_entries_are_held(per_drive, contents(index));
    assert(holds_walked(contents(index), i, entry));
    assert(answers(contents(index), lower_utf8(text), filters, i));
    let ids = law_only_answers_are_shown(index, query, text, filters, score, results);
    if !ids.contains(i) {
        assert(is_outdone(i, results, contents(index), lower_utf8(text), filters, score, ids));
    }
    let r = choose|r: int| 0 <= r < ids.len() && ids[r] == i;
    assert(is_result_of(results[r], contents(index), ids[r]));
    encode_utf8_valid_utf8(entry.0@);
    encode_utf8_valid_utf8(entry.1@);
    encode_utf8_decode_utf8(entry.0@);
    encode_utf8_decode_utf8(entry.1@);
    law_text_is_shown_as_it_is(encode_utf8(entry.0@));
    law_text_is_shown_as_it_is(encode_utf8(entry.1@));
    assert(shows_walked(results[r], entry));
}

/// Nothing else is found: each result shows a walked entry that the filters let through and whose
/// name in lower case holds the lower case form of the text asked with.
pub proof fn law_only_walked_entries_are_found<F: Fn(usize, usize, usize) -> u32>(
    per_drive: Seq<Result<DriveData, String>>,
    index: Arc<Index>,
    query: Seq<char>,
    text: Seq<char>,
    filters: FilterOptions,
    score: F,
    results: Seq<SearchResult>,
    r: int,
) -> (i: int)
    requires
        forall|d: int|
            0 <= d < per_drive.len() ==> !((#[trigger] per_drive[d]) matches Ok(
                DriveData::Builder(_),
            )),
        walked_fit(all_walked(per_drive)),
        finished(all_taken_in(per_drive), *index),
        command_outcome(Some(index), query, filters, score, results),
        asks_with(query, text),
        0 <= r < results.len(),
    ensures
        0 <= i < all_walked(per_drive).len(),
        shows_walked(results[r], all_walked(per_drive)[i]),
        holds(lower_utf8(all_walked(per_drive)[i].0@), lower_utf8(text)),
        all_walked(per_drive)[i].3 ==> filters.include_hidden,
        !all_walked(per_drive)[i].2 ==> {
            &&& filters.min_size matches Some(least) ==> least <= all_walked(per_drive)[i].4
            &&& filters.max_size matches Some(most) ==> all_walked(per_drive)[i].4 <= most
            &&& type_is_let_through(
                lower_utf8(all_walked(per_drive)[i].0@),
                filters.file_types@,
            )
        },
{
    law_walked_entries_are_held(per_drive, contents(index));
    let ids = law_only_answers_are_shown(index, query, text, filters, score, results);
    let i = ids[r];
    assert(answers(contents(index), lower_utf8(text), filters, ids[r]));
    assert(is_result_of(results[r], contents(index), ids[r]));
    let entry = all_walked(per_drive)[i];
    assert(holds_walked(contents(index), i, entry));
    encode_utf8_valid_utf8(entry.0@);
    encode_utf8_valid_utf8(entry.1@);
    encode_utf8_decode_utf8(entry.0@);
    encode_utf8_decode_utf8(entry.1@);
    law_text_is_shown_as_it_is(encode_utf8(entry.0@));
    law_text_is_shown_as_it_is(encode_utf8(entry.1@));
    i
}

} // verus!
