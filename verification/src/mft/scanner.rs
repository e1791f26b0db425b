//! Enumerating the records of a volume.

use crate::index::builder::{clipped, lemma_kept_is_no_larger};
use crate::mft::arena::{lemma_arena_length, MftArena};
use crate::mft::records::{read_record, read_units, record_at, units_at};
use crate::mft::types::{
    MftEnumDataV0, MftRawEntry, UsnJournalDataV0, UsnRecordV2, FILE_REF_MASK, RECORD_HEADER_SIZE,
};
use crate::mft::utf16::{
    before_pairs, decoded, high_surrogate, law_recoded_name_is_the_name,
    law_well_formed_name_is_its_text, lemma_before_pairs, lemma_pair_is_scalar, lemma_recoded_push,
    name_bytes, no_pairs, pair_bytes, recoded, unit_bytes,
};
use crate::text::{decimal, to_decimal};
use vstd::prelude::*;
use vstd::string::StringExecFns;
use vstd::string::StringSliceAdditionalSpecFns;
use vstd::utf8::encode_utf8;

verus! {

/// A name that is kept: not empty, not one of the two that every directory holds, and not one of
/// those that the file system keeps for itself.
pub open spec fn valid_filename(name: Seq<u8>) -> bool {
    &&& name.len() > 0
    &&& name != seq![0x2eu8]
    &&& name != seq![0x2eu8, 0x2eu8]
    &&& name[0] != 0x24
}

/// The attribute bit of a directory.
pub const FILE_ATTRIBUTE_DIRECTORY: u32 = 0x10;

/// The attribute bit of a hidden entry.
pub const FILE_ATTRIBUTE_HIDDEN: u32 = 0x2;

/// The time stamp of the first moment of 1970, in tenths of microseconds since 1601.
pub const EPOCH_TIME_STAMP: u64 = 116444736000000000;

/// A time stamp in seconds since 1970; zero where it lies before that.
pub open spec fn seconds_of(time_stamp: i64) -> u64 {
    let ft = time_stamp as u64;
    if ft > EPOCH_TIME_STAMP {
        ((ft - EPOCH_TIME_STAMP) / 10000000) as u64
    } else {
        0
    }
}

/// A time stamp in seconds since 1970.
fn to_seconds(time_stamp: i64) -> (secs: u64)
    ensures
        secs == seconds_of(time_stamp),
{
    let ft = #[verifier::truncate] (time_stamp as u64);
    if ft > EPOCH_TIME_STAMP {
        (ft - EPOCH_TIME_STAMP) / 10000000
    } else {
        0
    }
}

/// The bytes of the name of a record, where it lies in the data and is kept.
pub open spec fn name_of(record: UsnRecordV2, data: Seq<u8>, at: int) -> Option<Seq<u8>> {
    let count = (record.file_name_length / 2) as nat;
    let start = at + record.file_name_offset;
    let units = units_at(data, start, count);
    let name = name_bytes(units);
    if count > 0 && start + 2 * count <= data.len() && valid_filename(name) {
        Some(name)
    } else {
        None
    }
}

/// There is no further record from `at` on, or one whose length makes no sense.
pub open spec fn no_record_at(data: Seq<u8>, at: int) -> bool {
    at < 0 || at + RECORD_HEADER_SIZE > data.len() || record_at(data, at).record_length == 0
        || record_at(data, at).record_length > 0x10000
}

/// What an enumeration has come to: where it goes on, and what it has gathered.
#[verifier::ext_equal]
pub struct Scanned {
    pub start: u64,
    pub entries: Seq<MftRawEntry>,
    pub arena: Seq<u8>,
}

impl Scanned {
    /// After one more record: the enumeration goes on from it, and it is noted under its name if
    /// that is kept.
    pub open spec fn with_record(self, record: UsnRecordV2, name: Option<Seq<u8>>) -> Scanned {
        let start = record.file_reference_number;
        match name {
            Some(name) => Scanned {
                start,
                entries: self.entries.push(
                    MftRawEntry {
                        file_ref: record.file_reference_number & FILE_REF_MASK,
                        parent_ref: record.parent_file_reference_number & FILE_REF_MASK,
                        name_off: self.arena.len() as u32,
                        name_len: clipped(name.len() as int),
                        is_dir: record.file_attributes & FILE_ATTRIBUTE_DIRECTORY != 0,
                        is_hidden: record.file_attributes & FILE_ATTRIBUTE_HIDDEN != 0,
                        modified: seconds_of(record.time_stamp),
                    },
                ),
                arena: self.arena + name,
            },
            None => Scanned { start, ..self },
        }
    }

    /// After the records from `at` on. Each record tells how long it is; the walk ends where no
    /// further record fits or a length makes no sense.
    pub open spec fn with_records(self, data: Seq<u8>, at: int) -> Scanned
        decreases data.len() + 0x10000 - at,
    {
        let record = record_at(data, at);
        if no_record_at(data, at) {
            self
        } else {
            self.with_record(record, name_of(record, data, at)).with_records(
                data,
                at + record.record_length,
            )
        }
    }

    /// The name of an entry.
    pub open spec fn name(self, i: int) -> Seq<u8> {
        let e = self.entries[i];
        self.arena.subrange(e.name_off as int, e.name_off + e.name_len)
    }

    /// The names of all entries, in order.
    pub open spec fn names(self) -> Seq<Seq<u8>> {
        Seq::new(self.entries.len(), |i: int| self.name(i))
    }

    /// Every name lies in the arena.
    pub open spec fn well_formed(self) -> bool {
        forall|i: int|
            0 <= i < self.entries.len() ==> name_in_arena(#[trigger] self.entries[i], self.arena)
    }
}

/// The name of the entry lies in the arena.
pub open spec fn name_in_arena(e: MftRawEntry, arena: Seq<u8>) -> bool {
    e.name_off + e.name_len <= arena.len()
}

/// The arena only grows.
proof fn lemma_arena_grows(s: Scanned, data: Seq<u8>, at: int)
    ensures
        s.arena.len() <= s.with_records(data, at).arena.len(),
    decreases data.len() + 0x10000 - at,
{
    let record = record_at(data, at);
    if !no_record_at(data, at) {
        let next = s.with_record(record, name_of(record, data, at));
        lemma_arena_grows(next, data, at + record.record_length);
    }
}

/// No kept name from `at` on is so long that its length could not be told.
pub open spec fn names_fit(data: Seq<u8>, at: int) -> bool
    decreases data.len() + 0x10000 - at,
{
    let record = record_at(data, at);
    if no_record_at(data, at) {
        true
    } else {
        &&& name_of(record, data, at) matches Some(name) ==> name.len() <= 0xffff
        &&& names_fit(data, at + record.record_length)
    }
}

/// A noted record keeps every name in the arena, and the names noted before stay as they were.
proof fn lemma_noted_well_formed(s: Scanned, record: UsnRecordV2, name: Option<Seq<u8>>)
    requires
        s.well_formed(),
        s.with_record(record, name).arena.len() <= u64::MAX,
    ensures
        s.with_record(record, name).well_formed(),
        forall|i: int|
            0 <= i < s.entries.len() ==> #[trigger] s.with_record(record, name).name(i) == s.name(
                i,
            ),
{
    let t = s.with_record(record, name);
    lemma_kept_is_no_larger(s.arena.len() as int);
    assert forall|i: int| 0 <= i < s.entries.len() implies #[trigger] t.name(i) == s.name(i) by {
        assert(name_in_arena(s.entries[i], s.arena));
        assert(t.name(i) =~= s.name(i));
    }
    assert forall|i: int| 0 <= i < t.entries.len() implies name_in_arena(
        #[trigger] t.entries[i],
        t.arena,
    ) by {
        if i < s.entries.len() {
            assert(name_in_arena(s.entries[i], s.arena));
        }
    }
}

/// A record that is noted can be read back under its name, and the names noted before stay as they
/// were, as long as the arena stays within 32-bit offsets and the name within 16-bit lengths.
pub proof fn law_noted_name_is_read_back(s: Scanned, record: UsnRecordV2, name: Seq<u8>)
    requires
        s.well_formed(),
        s.arena.len() + name.len() <= u32::MAX,
        name.len() <= 0xffff,
    ensures
        s.with_record(record, Some(name)).well_formed(),
        s.with_record(record, Some(name)).name(s.entries.len() as int) == name,
        forall|i: int|
            0 <= i < s.entries.len() ==> #[trigger] s.with_record(record, Some(name)).name(i)
                == s.name(i),
{
    let t = s.with_record(record, Some(name));
    lemma_noted_well_formed(s, record, Some(name));
    assert(t.name(s.entries.len() as int) =~= name);
}

/// Whatever the bytes hold, a scan of them leaves every name in the arena.
pub proof fn law_scan_is_well_formed(s: Scanned, data: Seq<u8>, at: int)
    requires
        s.well_formed(),
        s.with_records(data, at).arena.len() <= u64::MAX,
    ensures
        s.with_records(data, at).well_formed(),
    decreases data.len() + 0x10000 - at,
{
    if !no_record_at(data, at) {
        let record = record_at(data, at);
        let name = name_of(record, data, at);
        let next = s.with_record(record, name);
        lemma_arena_grows(next, data, at + record.record_length);
        lemma_noted_well_formed(s, record, name);
        law_scan_is_well_formed(next, data, at + record.record_length);
    }
}

/// The kept names of the records from `at` on, in order.
pub open spec fn kept_names(data: Seq<u8>, at: int) -> Seq<Seq<u8>>
    decreases data.len() + 0x10000 - at,
{
    if no_record_at(data, at) {
        Seq::empty()
    } else {
        let record = record_at(data, at);
        (match name_of(record, data, at) {
            Some(name) => seq![name],
            None => Seq::empty(),
        }) + kept_names(data, at + record.record_length)
    }
}

/// A scan notes exactly the kept names, in the order of the records, behind those noted before, as
/// long as the arena stays within 32-bit offsets and no name is too long for its length to be told.
pub proof fn law_scan_notes_every_kept_name(s: Scanned, data: Seq<u8>, at: int)
    requires
        s.well_formed(),
        names_fit(data, at),
        s.with_records(data, at).arena.len() <= u32::MAX,
    ensures
        s.with_records(data, at).names() == s.names() + kept_names(data, at),
    decreases data.len() + 0x10000 - at,
{
    if no_record_at(data, at) {
        assert(s.names() + kept_names(data, at) =~= s.names());
    } else {
        let record = record_at(data, at);
        let name = name_of(record, data, at);
        let next = s.with_record(record, name);
        lemma_arena_grows(next, data, at + record.record_length);
        lemma_noted_well_formed(s, record, name);
        match name {
            Some(name) => {
                law_noted_name_is_read_back(s, record, name);
                assert forall|i: int| 0 <= i < s.entries.len() implies next.name(i)
                    == #[trigger] s.name(i) by {
                    assert(s.with_record(record, Some(name)).name(i) == s.name(i));
                }
                assert(next.names() =~= s.names().push(name));
            },
            None => {
                assert(next.names() =~= s.names());
            },
        }
        law_scan_notes_every_kept_name(next, data, at + record.record_length);
        assert(s.with_records(data, at).names() =~= s.names() + kept_names(data, at));
    }
}

/// The units of the name of a record.
pub open spec fn name_units(record: UsnRecordV2, data: Seq<u8>, at: int) -> Seq<u16> {
    units_at(data, at + record.file_name_offset, (record.file_name_length / 2) as nat)
}

/// Every record from `at` on has a name that lies in the data, is well formed UTF-16, and is one of
/// those that are kept.
pub open spec fn all_well_named(data: Seq<u8>, at: int) -> bool
    decreases data.len() + 0x10000 - at,
{
    if no_record_at(data, at) {
        true
    } else {
        let record = record_at(data, at);
        let units = name_units(record, data, at);
        &&& units.len() > 0
        &&& at + record.file_name_offset + 2 * units.len() <= data.len()
        &&& decoded(units) is Some
        &&& valid_filename(encode_utf8(decoded(units)->0))
        &&& all_well_named(data, at + record.record_length)
    }
}

/// The names that the records from `at` on spell, one for each record.
pub open spec fn spelled_names(data: Seq<u8>, at: int) -> Seq<Seq<u8>>
    decreases data.len() + 0x10000 - at,
{
    if no_record_at(data, at) {
        Seq::empty()
    } else {
        let record = record_at(data, at);
        seq![encode_utf8(decoded(name_units(record, data, at))->0)] + spelled_names(
            data,
            at + record.record_length,
        )
    }
}

/// Where every name is well formed and none is one of those that are passed over, there is one kept
/// name for each record, and it is the name that the record spells.
pub proof fn law_no_well_formed_name_is_lost(data: Seq<u8>, at: int)
    requires
        all_well_named(data, at),
    ensures
        kept_names(data, at) == spelled_names(data, at),
    decreases data.len() + 0x10000 - at,
{
    if !no_record_at(data, at) {
        let record = record_at(data, at);
        law_well_formed_name_is_its_text(name_units(record, data, at));
        law_no_well_formed_name_is_lost(data, at + record.record_length);
    }
}

/// What an enumeration gathered.
pub struct MftScanResult {
    pub entries: Vec<MftRawEntry>,
    pub arena: MftArena,
}

impl MftScanResult {
    /// Every name lies in the arena.
    pub open spec fn well_formed(&self) -> bool {
        Scanned { start: 0, entries: self.entries@, arena: self.arena@ }.well_formed()
    }
}

/// Appends the bytes into which a unit that stands for itself is recoded.
fn push_unit(dst: &mut Vec<u8>, unit: u16)
    ensures
        final(dst)@ == old(dst)@ + unit_bytes(unit),
{
    if unit < 0x80 {
        dst.push(unit as u8);
    } else if unit < 0x800 {
        dst.push(0xC0 + (unit / 64) as u8);
        dst.push(0x80 + (unit % 64) as u8);
    } else {
        dst.push(0xE0 + (unit / 4096) as u8);
        dst.push(0x80 + ((unit / 64) % 64) as u8);
        dst.push(0x80 + (unit % 64) as u8);
    }
    assert(dst@ =~= old(dst)@ + unit_bytes(unit));
}

/// What came of a read of records.
pub enum ReadOutcome<'a> {
    /// Nothing was read: the user called the enumeration off.
    Cancelled,
    /// The driver failed with this error code.
    Failed(u32),
    /// The driver wrote these bytes.
    Read(&'a [u8]),
}

/// How an enumeration goes on.
pub enum Progress {
    /// With another read.
    ReadOn,
    /// It is done.
    Finished,
    /// It has failed, for this reason.
    Failed(String),
}

/// The error code that tells that there are no more records.
pub const ERROR_HANDLE_EOF: u32 = 38;

/// An outcome that brings records: the driver puts eight bytes first.
pub open spec fn brings_records(outcome: ReadOutcome<'_>) -> bool {
    outcome matches ReadOutcome::Read(data) && data@.len() >= 8
}

/// The message for a failed read.
pub open spec fn read_error_text(code: u32) -> Seq<char> {
    "MFT read error: "@ + decimal(code as nat)
}

/// An enumeration of the records of a volume. It tells what the driver is to be asked, is told what
/// came of it, and gathers the entries.
pub struct MftScanner {
    enum_data: MftEnumDataV0,
    entries: Vec<MftRawEntry>,
    arena: MftArena,
    utf8_buf: Vec<u8>,
}

impl View for MftScanner {
    type V = Scanned;

    closed spec fn view(&self) -> Scanned {
        Scanned {
            start: self.enum_data.start_file_reference_number,
            entries: self.entries@,
            arena: self.arena@,
        }
    }
}

impl MftScanner {
    /// The change number up to which records are asked for.
    pub closed spec fn high_usn(&self) -> i64 {
        self.enum_data.high_usn
    }

    /// The change number from which on records are asked for.
    pub closed spec fn low_usn(&self) -> i64 {
        self.enum_data.low_usn
    }

    /// An enumeration from the first record on, up to the present state of the journal.
    pub fn new(journal: &UsnJournalDataV0) -> (scanner: Self)
        ensures
            scanner@ == (Scanned {
                start: 0,
                entries: Seq::<MftRawEntry>::empty(),
                arena: Seq::<u8>::empty(),
            }),
            scanner@.well_formed(),
            scanner.low_usn() == 0,
            scanner.high_usn() == journal.next_usn,
    {
        let scanner = MftScanner {
            enum_data: MftEnumDataV0 {
                start_file_reference_number: 0,
                low_usn: 0,
                high_usn: journal.next_usn,
            },
            entries: Vec::with_capacity(500_000),
            arena: MftArena::with_capacity(12_000_000),
            utf8_buf: Vec::with_capacity(512),
        };
        assert(scanner@ =~= (Scanned {
            start: 0,
            entries: Seq::<MftRawEntry>::empty(),
            arena: Seq::<u8>::empty(),
        }));
        scanner
    }

    /// What the driver is to be asked next.
    pub fn request(&self) -> (enum_data: MftEnumDataV0)
        ensures
            enum_data == (MftEnumDataV0 {
                start_file_reference_number: self@.start,
                low_usn: self.low_usn(),
                high_usn: self.high_usn(),
            }),
    {
        self.enum_data
    }

    /// Takes in what came of a read. Being called off, the end of the records and a read that brings
    /// none end the enumeration; another failure makes it fail.
    pub fn enumerate(&mut self, outcome: ReadOutcome<'_>) -> (progress: Progress)
        requires
            old(self)@.well_formed(),
        ensures
            final(self)@.well_formed(),
            match progress {
                Progress::ReadOn => brings_records(outcome),
                Progress::Finished => match outcome {
                    ReadOutcome::Cancelled => true,
                    ReadOutcome::Failed(code) => code == ERROR_HANDLE_EOF,
                    ReadOutcome::Read(data) => data@.len() < 8,
                },
                Progress::Failed(message) => outcome matches ReadOutcome::Failed(code) && code
                    != ERROR_HANDLE_EOF && message@ == read_error_text(code),
            },
            final(self)@ == match outcome {
                ReadOutcome::Read(data) => old(self)@.with_records(data@, 8),
                _ => old(self)@,
            },
            final(self).low_usn() == old(self).low_usn(),
            final(self).high_usn() == old(self).high_usn(),
    {
        match outcome {
            ReadOutcome::Cancelled => Progress::Finished,
            ReadOutcome::Failed(code) => {
                if code == ERROR_HANDLE_EOF {
                    Progress::Finished
                } else {
                    Progress::Failed("MFT read error: ".to_owned().concat(
                        to_decimal(code as u64).as_str(),
                    ))
                }
            },
            ReadOutcome::Read(data) => {
                if data.len() < 8 {
                    return Progress::Finished;
                }
                assert(data@.take(data@.len() as int) =~= data@);
                Self::parse_buffer(
                    data,
                    data.len(),
                    &mut self.enum_data,
                    &mut self.entries,
                    &mut self.arena,
                    &mut self.utf8_buf,
                );
                proof {
                    lemma_arena_length(self.arena);
                    law_scan_is_well_formed(old(self)@, data@, 8);
                }
                Progress::ReadOn
            },
        }
    }

    /// Gives up what was gathered.
    pub fn finish(self) -> (result: MftScanResult)
        requires
            self@.well_formed(),
        ensures
            result.well_formed(),
            result.entries@ == self@.entries,
            result.arena@ == self@.arena,
    {
        let ghost scanned = self@;
        let result = MftScanResult { entries: self.entries, arena: self.arena };
        assert(result.well_formed()) by {
            let s = Scanned { start: 0, entries: result.entries@, arena: result.arena@ };
            assert forall|i: int| 0 <= i < s.entries.len() implies name_in_arena(
                #[trigger] s.entries[i],
                s.arena,
            ) by {
                assert(name_in_arena(scanned.entries[i], scanned.arena));
            }
        }
        result
    }

    /// Notes the records in the first `bytes_ret` bytes of a buffer, behind the eight bytes that the
    /// driver puts first.
    pub fn parse_buffer(
        buffer: &[u8],
        bytes_ret: usize,
        enum_data: &mut MftEnumDataV0,
        entries: &mut Vec<MftRawEntry>,
        arena: &mut MftArena,
        utf8_buf: &mut Vec<u8>,
    )
        requires
            bytes_ret <= buffer@.len(),
        ensures
            (Scanned {
                start: final(enum_data).start_file_reference_number,
                entries: final(entries)@,
                arena: final(arena)@,
            }) == (Scanned {
                start: old(enum_data).start_file_reference_number,
                entries: old(entries)@,
                arena: old(arena)@,
            }).with_records(buffer@.take(bytes_ret as int), 8),
            *final(enum_data) == (MftEnumDataV0 {
                start_file_reference_number: final(enum_data).start_file_reference_number,
                ..*old(enum_data)
            }),
    {
        let data = vstd::slice::slice_subrange(buffer, 0, bytes_ret);
        assert(data@ =~= buffer@.take(bytes_ret as int));
        assert(data.len() == data@.len());
        let ghost first = Scanned {
            start: enum_data.start_file_reference_number,
            entries: entries@,
            arena: arena@,
        };
        let mut offset: usize = 8;
        while offset <= bytes_ret && bytes_ret - offset >= RECORD_HEADER_SIZE
            invariant_except_break
                data@.len() == bytes_ret == data.len(),
                8 <= offset,
                enum_data.low_usn == old(enum_data).low_usn,
                enum_data.high_usn == old(enum_data).high_usn,
                first.with_records(data@, 8) == (Scanned {
                    start: enum_data.start_file_reference_number,
                    entries: entries@,
                    arena: arena@,
                }).with_records(data@, offset as int),
            ensures
                enum_data.low_usn == old(enum_data).low_usn,
                enum_data.high_usn == old(enum_data).high_usn,
                first.with_records(data@, 8) == (Scanned {
                    start: enum_data.start_file_reference_number,
                    entries: entries@,
                    arena: arena@,
                }),
            decreases bytes_ret + 0x10000 - offset,
        {
            let record = read_record(data, offset);
            if record.record_length == 0 || record.record_length > 0x10000 {
                break;
            }
            let ghost before = Scanned {
                start: enum_data.start_file_reference_number,
                entries: entries@,
                arena: arena@,
            };
            let count: usize = (record.file_name_length / 2) as usize;
            let room: usize = bytes_ret - offset;
            let name_off: usize = record.file_name_offset as usize;
            if count > 0 && name_off <= room && 2 * count <= room - name_off {
                let units = read_units(data, offset + name_off, count);
                utf8_buf.clear();
                Self::recode_name(units.as_slice(), utf8_buf);
                if is_kept_name(utf8_buf.as_slice()) {
                    let (name_off, name_len) = arena.push_bytes(utf8_buf.as_slice());
                    entries.push(
                        MftRawEntry {
                            file_ref: record.file_reference_number & FILE_REF_MASK,
                            parent_ref: record.parent_file_reference_number & FILE_REF_MASK,
                            name_off,
                            name_len,
                            is_dir: (record.file_attributes & FILE_ATTRIBUTE_DIRECTORY) != 0,
                            is_hidden: (record.file_attributes & FILE_ATTRIBUTE_HIDDEN) != 0,
                            modified: to_seconds(record.time_stamp),
                        },
                    );
                }
            }
            enum_data.start_file_reference_number = record.file_reference_number;
            proof {
                let name = name_of(record, data@, offset as int);
                let after = Scanned {
                    start: enum_data.start_file_reference_number,
                    entries: entries@,
                    arena: arena@,
                };
                assert(after =~= before.with_record(record, name));
                if record.record_length > room {
                    assert(after.with_records(data@, offset + record.record_length) == after);
                }
            }
            if record.record_length as usize > room {
                break;
            }
            offset += record.record_length as usize;
        }
    }

    /// Recodes a name into an empty buffer: unit by unit where that can be done, else with regard to
    /// pairs.
    fn recode_name(units: &[u16], buf: &mut Vec<u8>)
        requires
            old(buf)@.len() == 0,
        ensures
            final(buf)@ == name_bytes(units@),
    {
        if Self::utf16_to_utf8_fast(units, buf) {
            proof {
                lemma_before_pairs(units@, units@.len() as int);
                assert(units@.take(units@.len() as int) =~= units@);
                law_recoded_name_is_the_name(units@);
                assert(buf@ =~= recoded(units@));
            }
        } else {
            buf.clear();
            Self::utf16_to_utf8(units, buf);
            assert(buf@ =~= name_bytes(units@));
        }
    }

    /// Recodes UTF-16 units as UTF-8 behind what `dst` holds. A surrogate that stands alone spells
    /// no character: it is kept as the three bytes of its number, and the answer tells that there
    /// was one.
    pub fn utf16_to_utf8(src: &[u16], dst: &mut Vec<u8>) -> (whole: bool)
        ensures
            whole == (decoded(src@) is Some),
            whole ==> final(dst)@ == old(dst)@ + encode_utf8(decoded(src@)->0),
            final(dst)@ == old(dst)@ + name_bytes(src@),
    {
        let mut whole = true;
        let mut i: usize = 0;
        proof {
            assert(src@.skip(0) =~= src@);
        }
        while i < src.len()
            invariant
                i <= src@.len(),
                old(dst)@ + name_bytes(src@) == dst@ + name_bytes(src@.skip(i as int)),
                decoded(src@) is Some <==> whole && decoded(src@.skip(i as int)) is Some,
            decreases src@.len() - i,
        {
            let c = src[i];
            let ghost rest = src@.skip(i as int);
            let ghost before = dst@;
            let mut step: usize = 1;
            if 0xD800 <= c && c <= 0xDBFF && i + 1 < src.len() && 0xDC00 <= src[i + 1] && src[i + 1]
                <= 0xDFFF {
                let low = src[i + 1];
                let v: u32 = 0x10000 + (c as u32 - 0xD800) * 0x400 + (low as u32 - 0xDC00);
                proof {
                    assert(rest[0] == c && rest[1] == low);
                    lemma_pair_is_scalar(c, low, v);
                    assert(rest.skip(2) =~= src@.skip(i + 2));
                }
                dst.push((0xF0 + v / 262144) as u8);
                dst.push((0x80 + (v / 4096) % 64) as u8);
                dst.push((0x80 + (v / 64) % 64) as u8);
                dst.push((0x80 + v % 64) as u8);
                assert(dst@ =~= before + pair_bytes(v));
                step = 2;
            } else {
                if 0xD800 <= c && c <= 0xDFFF {
                    whole = false;
                }
                proof {
                    assert(rest[0] == c);
                    assert(i + 1 < src@.len() ==> rest[1] == src@[i + 1]);
                    assert(rest.skip(1) =~= src@.skip(i + 1));
                }
                push_unit(dst, c);
            }
            proof {
                assert(before + name_bytes(rest) =~= dst@ + name_bytes(src@.skip(i + step)));
            }
            i += step;
        }
        proof {
            assert(name_bytes(src@.skip(i as int)) =~= Seq::<u8>::empty());
            assert(dst@ =~= old(dst)@ + name_bytes(src@));
            if whole {
                law_well_formed_name_is_its_text(src@);
            }
        }
        whole
    }

    /// Recodes UTF-16 units as UTF-8 behind what `dst` holds. Gives up at the first unit that announces
    /// a pair, and tells so.
    pub fn utf16_to_utf8_fast(src: &[u16], dst: &mut Vec<u8>) -> (whole: bool)
        ensures
            whole == no_pairs(src@),
            final(dst)@ == old(dst)@ + recoded(before_pairs(src@)),
    {
        let mut i: usize = 0;
        assert(dst@ =~= old(dst)@ + recoded(src@.take(0)));
        while i < src.len()
            invariant
                i <= src@.len(),
                no_pairs(src@.take(i as int)),
                dst@ == old(dst)@ + recoded(src@.take(i as int)),
            decreases src@.len() - i,
        {
            let c = src[i];
            let ghost done = dst@;
            proof {
                assert(src@.take(i + 1) =~= src@.take(i as int).push(c));
                lemma_recoded_push(src@.take(i as int), c);
            }
            if 0xD800 <= c && c <= 0xDBFF {
                proof {
                    assert(!no_pairs(src@)) by {
                        assert(high_surrogate(src@[i as int]));
                    }
                    lemma_before_pairs(src@, i as int);
                }
                return false;
            }
            push_unit(dst, c);
            proof {
                assert(dst@ == done + unit_bytes(c));
                assert(dst@ =~= old(dst)@ + recoded(src@.take(i + 1)));
                assert forall|j: int| 0 <= j < i + 1 implies !high_surrogate(
                    #[trigger] src@.take(i + 1)[j],
                ) by {
                    if j < i {
                        assert(!high_surrogate(src@.take(i as int)[j]));
                    }
                }
            }
            i += 1;
        }
        proof {
            assert(src@.take(i as int) =~= src@);
            lemma_before_pairs(src@, i as int);
        }
        true
    }

    /// Whether a name is kept.
    pub fn is_valid_filename(name: &str) -> (b: bool)
        ensures
            b == valid_filename(name.spec_bytes()),
    {
        is_kept_name(name.as_bytes())
    }
}

/// Whether a name, which need not be text, is kept.
fn is_kept_name(bytes: &[u8]) -> (b: bool)
    ensures
        b == valid_filename(bytes@),
{
    let n: usize = bytes.len();
    if n == 0 || bytes[0] == 0x24 {
        return false;
    }
    let dots = bytes[0] == 0x2e && (n == 1 || (n == 2 && bytes[1] == 0x2e));
    proof {
        if n == 1 && bytes@[0] == 0x2e {
            assert(bytes@ =~= seq![0x2eu8]);
        }
        if n == 2 && bytes@[0] == 0x2e && bytes@[1] == 0x2e {
            assert(bytes@ =~= seq![0x2eu8, 0x2eu8]);
        }
    }
    !dots
}

} // verus!
