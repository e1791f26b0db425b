//! Indexing the selected drives.

use crate::index::builder::{
    dir_entries, file_entries, finished, law_entries_are_counted_once, law_parts_join_as_one,
    lemma_merged_counts, lemma_with_all_joined, lemma_with_all_sizes, text_size, Gathered,
    IndexBuilder, Listed,
};
use crate::index::store::{Index, IndexStore};
use crate::mft::scanner::MftScanResult;
use crate::platform::paths::{
    build_paths_into_builder, dirs_in, files_in, lemma_listed_counts, lists_scan,
};
use crate::platform::walker::{all_listed, listed, WalkedEntry};
use crate::types::drive::{DriveProgress, IndexState};
use std::sync::Arc;
use vstd::prelude::*;

verus! {

/// The state at the start: every selected drive is listed, and nothing was done yet.
pub open spec fn is_started(state: IndexState, drives: Seq<char>) -> bool {
    &&& state.running
    &&& !state.finished
    &&& state.total_scanned == 0
    &&& state.total_files == 0
    &&& state.total_dirs == 0
    &&& state.elapsed_ms == 0
    &&& state.drives@.len() == drives.len()
    &&& forall|i: int|
        0 <= i < drives.len() ==> is_unscanned(#[trigger] state.drives@[i], drives[i])
}

/// Nothing was read of the drive yet.
pub open spec fn is_unscanned(drive: DriveProgress, letter: char) -> bool {
    &&& drive.letter == letter
    &&& drive.scanned == 0
    &&& !drive.finished
    &&& drive.method@ == Seq::<char>::empty()
}

/// Indexing starts with one entry for each selected drive, in the order of the selection, and with
/// every count at zero.
pub proof fn law_indexing_starts_from_nothing(state: IndexState, drives: Seq<char>, i: int)
    requires
        is_started(state, drives),
        0 <= i < drives.len(),
    ensures
        state.running && !state.finished,
        state.total_scanned == 0 && state.total_files == 0 && state.total_dirs == 0,
        state.elapsed_ms == 0,
        state.drives@.len() == drives.len(),
        state.drives@[i].letter == drives[i],
        state.drives@[i].scanned == 0 && !state.drives@[i].finished,
        state.drives@[i].method@.len() == 0,
{
    assert(is_unscanned(state.drives@[i], drives[i]));
}

fn unscanned(letter: char) -> (drive: DriveProgress)
    ensures
        is_unscanned(drive, letter),
{
    DriveProgress { letter, scanned: 0, finished: false, method: String::new() }
}

/// The state with which indexing the selected drives starts. There must be at least one.
pub fn start_indexing(selected_drives: &Vec<char>) -> (state: Result<IndexState, String>)
    ensures
        match state {
            Ok(state) => selected_drives@.len() > 0 && is_started(state, selected_drives@),
            Err(message) => selected_drives@.len() == 0 && message@
                == "Выберите хотя бы один диск"@,
        },
{
    if selected_drives.len() == 0 {
        return Err("Выберите хотя бы один диск".to_owned());
    }
    let mut drives: Vec<DriveProgress> = Vec::with_capacity(selected_drives.len());
    let mut i: usize = 0;
    while i < selected_drives.len()
        invariant
            i <= selected_drives@.len(),
            drives@.len() == i,
            forall|j: int|
                0 <= j < i ==> is_unscanned(#[trigger] drives@[j], selected_drives@[j]),
        decreases selected_drives@.len() - i,
    {
        drives.push(unscanned(selected_drives[i]));
        i += 1;
    }
    Ok(
        IndexState {
            running: true,
            drives,
            total_scanned: 0,
            total_files: 0,
            total_dirs: 0,
            elapsed_ms: 0,
            finished: false,
        },
    )
}

/// The place of the first drive with this letter.
pub open spec fn first_with(drives: Seq<DriveProgress>, letter: char) -> Option<int>
    decreases drives.len(),
{
    if drives.len() == 0 {
        None
    } else {
        match first_with(drives.drop_last(), letter) {
            Some(i) => Some(i),
            None => if drives.last().letter == letter {
                Some(drives.len() - 1)
            } else {
                None
            },
        }
    }
}

fn find_drive(drives: &Vec<DriveProgress>, letter: char) -> (place: Option<usize>)
    ensures
        match place {
            Some(p) => p < drives@.len() && first_with(drives@, letter) == Some(p as int),
            None => first_with(drives@, letter) is None,
        },
{
    let mut i: usize = 0;
    while i < drives.len()
        invariant
            i <= drives@.len(),
            first_with(drives@.take(i as int), letter) is None,
        decreases drives@.len() - i,
    {
        assert(drives@.take(i + 1).drop_last() =~= drives@.take(i as int));
        if drives[i].letter == letter {
            proof {
                lemma_first_stays(drives@, letter, i + 1);
            }
            return Some(i);
        }
        i += 1;
    }
    assert(drives@.take(i as int) =~= drives@);
    None
}

/// Drives further on do not change which is first.
proof fn lemma_first_stays(drives: Seq<DriveProgress>, letter: char, n: int)
    requires
        0 <= n <= drives.len(),
        first_with(drives.take(n), letter) is Some,
    ensures
        first_with(drives, letter) == first_with(drives.take(n), letter),
    decreases drives.len() - n,
{
    if n < drives.len() {
        assert(drives.take(n + 1).drop_last() =~= drives.take(n));
        lemma_first_stays(drives, letter, n + 1);
    } else {
        assert(drives.take(n) =~= drives);
    }
}

/// The drive that is found is one with the letter, and none before it has the letter; where none is
/// found, no drive has it.
pub proof fn law_first_drive_with_the_letter_is_found(drives: Seq<DriveProgress>, letter: char)
    ensures
        match first_with(drives, letter) {
            Some(i) => {
                &&& 0 <= i < drives.len()
                &&& drives[i].letter == letter
                &&& forall|j: int| 0 <= j < i ==> (#[trigger] drives[j]).letter != letter
            },
            None => forall|j: int|
                0 <= j < drives.len() ==> (#[trigger] drives[j]).letter != letter,
        },
    decreases drives.len(),
{
    if drives.len() > 0 {
        let rest = drives.drop_last();
        law_first_drive_with_the_letter_is_found(rest, letter);
        if first_with(rest, letter) is None {
            assert forall|j: int| 0 <= j < rest.len() implies (#[trigger] drives[j]).letter
                != letter by {
                assert(rest[j] == drives[j]);
            }
        } else {
            let i = first_with(rest, letter)->Some_0;
            assert(rest[i] == drives[i]);
            assert forall|j: int| 0 <= j < i implies (#[trigger] drives[j]).letter != letter by {
                assert(rest[j] == drives[j]);
            }
        }
    }
}

/// How a drive is read.
#[derive(Clone, Copy, Debug, PartialEq, Eq, Structural)]
pub enum ReadMethod {
    /// From its file table.
    Table,
    /// By a walk through its directories.
    Walk,
}

/// How a drive is read: from its file table where its volume could be opened, else by a walk.
pub fn choose_method(opened: bool) -> (method: ReadMethod)
    ensures
        method == if opened {
            ReadMethod::Table
        } else {
            ReadMethod::Walk
        },
{
    if opened {
        ReadMethod::Table
    } else {
        ReadMethod::Walk
    }
}

/// What a way of reading is called.
pub open spec fn method_text(method: ReadMethod) -> Seq<char> {
    match method {
        ReadMethod::Table => "MFT"@,
        ReadMethod::Walk => "Walker"@,
    }
}

/// Two states that differ in their drives at most.
pub open spec fn same_but_drives(a: IndexState, b: IndexState) -> bool {
    &&& a.running == b.running
    &&& a.finished == b.finished
    &&& a.total_scanned == b.total_scanned
    &&& a.total_files == b.total_files
    &&& a.total_dirs == b.total_dirs
    &&& a.elapsed_ms == b.elapsed_ms
}

/// Noting something of a drive leaves the counts, the elapsed time and the end of the run alone.
pub proof fn law_only_drives_differ(a: IndexState, b: IndexState)
    requires
        same_but_drives(a, b),
    ensures
        b == (IndexState { drives: b.drives, ..a }),
{
}

/// Notes how the drive with this letter is read.
pub fn set_method(state: &mut IndexState, letter: char, method: ReadMethod)
    ensures
        same_but_drives(*old(state), *final(state)),
        match first_with(old(state).drives@, letter) {
            Some(i) => {
                let d = old(state).drives@[i];
                let e = final(state).drives@[i];
                &&& final(state).drives@ == old(state).drives@.update(i, e)
                &&& e == (DriveProgress { method: e.method, ..d })
                &&& e.method@ == method_text(method)
            },
            None => final(state).drives@ == old(state).drives@,
        },
{
    if let Some(i) = find_drive(&state.drives, letter) {
        let name = match method {
            ReadMethod::Table => "MFT".to_owned(),
            ReadMethod::Walk => "Walker".to_owned(),
        };
        state.drives[i].method = name;
        proof {
            assert(state.drives@ =~= old(state).drives@.update(i as int, state.drives@[i as int]));
        }
    }
}

/// Notes that the drive with this letter was read, and how many entries were found.
pub fn set_scanned(state: &mut IndexState, letter: char, count: u64)
    ensures
        same_but_drives(*old(state), *final(state)),
        final(state).drives@ == match first_with(old(state).drives@, letter) {
            Some(i) => old(state).drives@.update(
                i,
                DriveProgress { finished: true, scanned: count, ..old(state).drives@[i] },
            ),
            None => old(state).drives@,
        },
{
    if let Some(i) = find_drive(&state.drives, letter) {
        state.drives[i].finished = true;
        state.drives[i].scanned = count;
        proof {
            assert(state.drives@ =~= old(state).drives@.update(
                i as int,
                DriveProgress {
                    finished: true,
                    scanned: count,
                    ..old(state).drives@[i as int]
                },
            ));
        }
    }
}

/// Notes the counts so far.
pub fn set_totals(state: &mut IndexState, scanned: u64, files: u64, dirs: u64)
    ensures
        *final(state) == (IndexState {
            total_scanned: scanned,
            total_files: files,
            total_dirs: dirs,
            ..*old(state)
        }),
{
    state.total_scanned = scanned;
    state.total_files = files;
    state.total_dirs = dirs;
}

/// Notes that indexing has come to its end, be it done or called off.
pub fn set_finished(state: &mut IndexState, elapsed_ms: u64)
    ensures
        *final(state) == (IndexState {
            running: false,
            finished: true,
            elapsed_ms,
            ..*old(state)
        }),
{
    state.running = false;
    state.finished = true;
    state.elapsed_ms = elapsed_ms;
}

/// What was read of a drive.
pub enum DriveData {
    /// The entries of its file table, with their paths.
    Builder(IndexBuilder),
    /// The entries that a walk came upon.
    Walker(Vec<WalkedEntry>),
}

/// What was read of a drive, how many entries that are, and how many files and directories were
/// counted already.
pub struct DriveRead {
    pub data: DriveData,
    pub scanned: u64,
    pub files: u64,
    pub dirs: u64,
}

/// Puts together what was read from the file table of a drive.
pub fn read_from_table(scan_result: MftScanResult, letter: char) -> (read: DriveRead)
    requires
        scan_result.well_formed(),
    ensures
        read.scanned == scan_result.entries@.len(),
        read.data matches DriveData::Builder(builder) && builder@.well_formed() && lists_scan(
            scan_result.entries@,
            scan_result.arena@,
            letter,
            builder@,
            read.files,
            read.dirs,
        ) && read.files == file_entries(builder@.entries) && read.dirs == dir_entries(
            builder@.entries,
        ),
{
    let scanned = scan_result.entries.len() as u64;
    let (builder, files, dirs) = build_paths_into_builder(scan_result, letter);
    DriveRead { data: DriveData::Builder(builder), scanned, files, dirs }
}

/// Puts together what a walk through a drive came upon. Files and directories are counted later.
pub fn read_by_walk(entries: Vec<WalkedEntry>) -> (read: DriveRead)
    ensures
        read.data == DriveData::Walker(entries),
        read.scanned == entries@.len(),
        read.files == 0,
        read.dirs == 0,
{
    let scanned = entries.len() as u64;
    DriveRead { data: DriveData::Walker(entries), scanned, files: 0, dirs: 0 }
}

/// How many entries were read of a drive.
pub open spec fn entries_in(data: Result<DriveData, String>) -> nat {
    match data {
        Ok(DriveData::Builder(builder)) => builder@.entries.len(),
        Ok(DriveData::Walker(entries)) => entries@.len(),
        Err(_) => 0,
    }
}

/// How many entries were read of all drives.
pub open spec fn entries_in_all(per_drive: Seq<Result<DriveData, String>>) -> nat
    decreases per_drive.len(),
{
    if per_drive.len() == 0 {
        0
    } else {
        entries_in_all(per_drive.drop_last()) + entries_in(per_drive.last())
    }
}

/// How many entries were read of all drives, as far as that can be told.
pub fn total_estimate(per_drive: &Vec<Result<DriveData, String>>) -> (total: usize)
    ensures
        total == if entries_in_all(per_drive@) <= usize::MAX {
            entries_in_all(per_drive@) as int
        } else {
            usize::MAX as int
        },
{
    let mut total: usize = 0;
    let mut i: usize = 0;
    while i < per_drive.len()
        invariant
            i <= per_drive@.len(),
            total == if entries_in_all(per_drive@.take(i as int)) <= usize::MAX {
                entries_in_all(per_drive@.take(i as int)) as int
            } else {
                usize::MAX as int
            },
        decreases per_drive@.len() - i,
    {
        assert(per_drive@.take(i + 1).drop_last() =~= per_drive@.take(i as int));
        let count: usize = match &per_drive[i] {
            Ok(DriveData::Builder(builder)) => builder.entry_count(),
            Ok(DriveData::Walker(entries)) => entries.len(),
            Err(_) => 0,
        };
        total = total.saturating_add(count);
        i += 1;
    }
    assert(per_drive@.take(i as int) =~= per_drive@);
    total
}

/// The builder after what was read of a drive was taken in. A drive that could not be read adds
/// nothing.
pub open spec fn taken_in(gathered: Gathered, data: Result<DriveData, String>) -> Gathered {
    match data {
        Ok(DriveData::Builder(builder)) => gathered.merged(builder@),
        Ok(DriveData::Walker(entries)) => gathered.with_all(all_listed(entries@)),
        Err(_) => gathered,
    }
}

/// The builder after what was read of all drives was taken in, drive by drive.
pub open spec fn all_taken_in(per_drive: Seq<Result<DriveData, String>>) -> Gathered
    decreases per_drive.len(),
{
    if per_drive.len() == 0 {
        Gathered::nothing()
    } else {
        taken_in(all_taken_in(per_drive.drop_last()), per_drive.last())
    }
}

/// Whether a builder that was read of a drive is well formed.
pub open spec fn data_well_formed(data: Result<DriveData, String>) -> bool {
    data matches Ok(DriveData::Builder(builder)) ==> builder@.well_formed()
}

/// Adds the entries that a walk came upon.
fn add_walked(builder: &mut IndexBuilder, entries: &Vec<WalkedEntry>)
    requires
        old(builder)@.well_formed(),
    ensures
        final(builder)@ == old(builder)@.with_all(all_listed(entries@)),
        final(builder)@.well_formed(),
{
    let ghost items = all_listed(entries@);
    let mut i: usize = 0;
    while i < entries.len()
        invariant
            i <= entries@.len(),
            items == all_listed(entries@),
            builder@ == old(builder)@.with_all(items.take(i as int)),
            builder@.well_formed(),
        decreases entries@.len() - i,
    {
        let entry = &entries[i];
        builder.add(
            entry.0.as_str(),
            entry.1.as_str(),
            entry.2,
            entry.3,
            entry.4,
            entry.5,
        );
        proof {
            assert(items[i as int] == listed(entries@[i as int]));
            assert(items.take(i + 1).drop_last() =~= items.take(i as int));
            assert(items.take(i + 1).last() == items[i as int]);
        }
        i += 1;
    }
    assert(items.take(i as int) =~= items);
}

/// Takes in what was read of all drives, drive by drive. Gives the builder, and the counts of the
/// files and directories in it.
pub fn assemble(per_drive: Vec<Result<DriveData, String>>) -> (built: (IndexBuilder, u64, u64))
    requires
        forall|i: int| 0 <= i < per_drive@.len() ==> data_well_formed(#[trigger] per_drive@[i]),
    ensures
        built.0@ == all_taken_in(per_drive@),
        built.0@.well_formed(),
        built.1 == file_entries(built.0@.entries),
        built.2 == dir_entries(built.0@.entries),
{
    let mut builder = IndexBuilder::with_capacity(total_estimate(&per_drive));
    let ghost all = per_drive@;
    for data in it: per_drive
        invariant
            it.seq() == all,
            forall|i: int| 0 <= i < all.len() ==> data_well_formed(#[trigger] all[i]),
            builder@ == all_taken_in(all.take(it.index() as int)),
            builder@.well_formed(),
    {
        let ghost i = it.index() as int;
        proof {
            assert(data_well_formed(all[i]));
            assert(all.take(i + 1).drop_last() =~= all.take(i));
            assert(all.take(i + 1).last() == all[i]);
        }
        match data {
            Ok(DriveData::Builder(part)) => {
                builder.merge(part);
            },
            Ok(DriveData::Walker(entries)) => {
                add_walked(&mut builder, &entries);
            },
            Err(_) => {},
        }
    }
    assert(all.take(all.len() as int) =~= all);
    let (files, dirs) = builder.count_entries();
    (builder, files, dirs)
}

/// What a run comes to: nothing where it was called off, else what was read of all drives, with the
/// counts of its files and directories.
pub fn conclude(cancelled: bool, per_drive: Vec<Result<DriveData, String>>) -> (built: Option<
    (IndexBuilder, u64, u64),
>)
    requires
        forall|i: int| 0 <= i < per_drive@.len() ==> data_well_formed(#[trigger] per_drive@[i]),
    ensures
        cancelled <==> built is None,
        built matches Some(b) ==> {
            &&& b.0@ == all_taken_in(per_drive@)
            &&& b.0@.well_formed()
            &&& b.1 == file_entries(b.0@.entries)
            &&& b.2 == dir_entries(b.0@.entries)
        },
{
    if cancelled {
        None
    } else {
        Some(assemble(per_drive))
    }
}

/// How many files were read of a drive.
pub open spec fn files_read(data: Result<DriveData, String>) -> nat {
    match data {
        Ok(DriveData::Builder(builder)) => file_entries(builder@.entries),
        Ok(DriveData::Walker(entries)) => files_in(all_listed(entries@)),
        Err(_) => 0,
    }
}

/// How many directories were read of a drive.
pub open spec fn dirs_read(data: Result<DriveData, String>) -> nat {
    match data {
        Ok(DriveData::Builder(builder)) => dir_entries(builder@.entries),
        Ok(DriveData::Walker(entries)) => dirs_in(all_listed(entries@)),
        Err(_) => 0,
    }
}

/// How many files were read of all drives.
pub open spec fn all_files_read(per_drive: Seq<Result<DriveData, String>>) -> nat
    decreases per_drive.len(),
{
    if per_drive.len() == 0 {
        0
    } else {
        all_files_read(per_drive.drop_last()) + files_read(per_drive.last())
    }
}

/// How many directories were read of all drives.
pub open spec fn all_dirs_read(per_drive: Seq<Result<DriveData, String>>) -> nat
    decreases per_drive.len(),
{
    if per_drive.len() == 0 {
        0
    } else {
        all_dirs_read(per_drive.drop_last()) + dirs_read(per_drive.last())
    }
}

/// The files and directories read of all drives together are those of the finished index.
pub proof fn law_totals_are_those_of_the_index(
    per_drive: Seq<Result<DriveData, String>>,
    index: Index,
)
    requires
        finished(all_taken_in(per_drive), index),
    ensures
        file_entries(index.entries@) == all_files_read(per_drive),
        dir_entries(index.entries@) == all_dirs_read(per_drive),
        file_entries(index.entries@) + dir_entries(index.entries@) == index.entries@.len(),
{
    lemma_totals(per_drive);
    law_entries_are_counted_once(index.entries@);
}

proof fn lemma_totals(per_drive: Seq<Result<DriveData, String>>)
    ensures
        file_entries(all_taken_in(per_drive).entries) == all_files_read(per_drive),
        dir_entries(all_taken_in(per_drive).entries) == all_dirs_read(per_drive),
    decreases per_drive.len(),
{
    if per_drive.len() > 0 {
        let before = all_taken_in(per_drive.drop_last());
        lemma_totals(per_drive.drop_last());
        match per_drive.last() {
            Ok(DriveData::Builder(builder)) => {
                lemma_merged_counts(before, builder@);
            },
            Ok(DriveData::Walker(entries)) => {
                lemma_listed_counts(before, all_listed(entries@));
            },
            Err(_) => {},
        }
    }
}

/// What was read of a drive lists these entries. A drive that could not be read lists none.
pub open spec fn data_lists(data: Result<DriveData, String>, items: Seq<Listed>) -> bool {
    match data {
        Ok(DriveData::Builder(builder)) => builder@ == Gathered::nothing().with_all(items),
        Ok(DriveData::Walker(entries)) => items == all_listed(entries@),
        Err(_) => items == Seq::<Listed>::empty(),
    }
}

/// The listed entries of all drives, drive by drive.
pub open spec fn joined(parts: Seq<Seq<Listed>>) -> Seq<Listed>
    decreases parts.len(),
{
    if parts.len() == 0 {
        Seq::empty()
    } else {
        joined(parts.drop_last()) + parts.last()
    }
}

proof fn lemma_text_size_joined(a: Seq<Listed>, b: Seq<Listed>)
    ensures
        text_size(a + b) == text_size(a) + text_size(b),
    decreases b.len(),
{
    if b.len() == 0 {
        assert(a + b =~= a);
    } else {
        lemma_text_size_joined(a, b.drop_last());
        assert((a + b).drop_last() =~= a + b.drop_last());
    }
}

/// However the drives were read, taking them in one after the other is listing the entries of all
/// of them in one builder.
pub proof fn law_drives_join_as_one(
    per_drive: Seq<Result<DriveData, String>>,
    parts: Seq<Seq<Listed>>,
)
    requires
        parts.len() == per_drive.len(),
        forall|i: int|
            0 <= i < parts.len() ==> data_lists(#[trigger] per_drive[i], #[trigger] parts[i]),
        joined(parts).len() <= u64::MAX,
        text_size(joined(parts)) <= u64::MAX,
    ensures
        all_taken_in(per_drive) == Gathered::nothing().with_all(joined(parts)),
    decreases parts.len(),
{
    if parts.len() > 0 {
        let before = parts.drop_last();
        let items = parts.last();
        assert forall|i: int| 0 <= i < before.len() implies data_lists(
            #[trigger] per_drive.drop_last()[i],
            #[trigger] before[i],
        ) by {
            assert(data_lists(per_drive[i], parts[i]));
        }
        assert(data_lists(per_drive[parts.len() - 1], parts[parts.len() - 1]));
        lemma_text_size_joined(joined(before), items);
        law_drives_join_as_one(per_drive.drop_last(), before);
        let so_far = Gathered::nothing().with_all(joined(before));
        lemma_with_all_sizes(Gathered::nothing(), joined(before));
        lemma_with_all_joined(Gathered::nothing(), joined(before), items);
        match per_drive.last() {
            Ok(DriveData::Builder(_)) => {
                law_parts_join_as_one(so_far, items);
            },
            _ => {},
        }
    }
}

/// However the drives were read, as many entries are told to have been read as the index is made of.
pub proof fn law_all_read_entries_are_told(
    per_drive: Seq<Result<DriveData, String>>,
    index: Index,
)
    requires
        finished(all_taken_in(per_drive), index),
    ensures
        entries_in_all(per_drive) == index.entries@.len(),
{
    lemma_entries_taken_in(per_drive);
}

proof fn lemma_entries_taken_in(per_drive: Seq<Result<DriveData, String>>)
    ensures
        all_taken_in(per_drive).entries.len() == entries_in_all(per_drive),
    decreases per_drive.len(),
{
    if per_drive.len() > 0 {
        let before = all_taken_in(per_drive.drop_last());
        lemma_entries_taken_in(per_drive.drop_last());
        if let Ok(DriveData::Walker(entries)) = per_drive.last() {
            lemma_with_all_sizes(before, all_listed(entries@));
        }
    }
}

/// Makes an index the current one.
pub fn publish(store: &IndexStore, index: Index)
    ensures
        store.was_given(Some(Arc::new(index))),
{
    store.store(index);
}

} // verus!
