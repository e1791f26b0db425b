//! What the file system driver is asked, what it answers, and what is kept of an answer.

use vstd::prelude::*;

verus! {

/// The control code that enumerates the records of a volume.
pub const FSCTL_ENUM_USN_DATA: u32 = 0x000900b3;

/// The control code that asks for the state of the change journal.
pub const FSCTL_QUERY_USN_JOURNAL: u32 = 0x000900f4;

/// The size of the buffer that records are read into.
pub const MFT_BUFFER_SIZE: usize = 32 * 1024 * 1024;

/// The reference number of the root directory, with its sequence number.
pub const ROOT_FILE_REF: u64 = 0x0005_0000_0000_0005;

/// The part of a reference number without the sequence number.
pub const FILE_REF_MASK: u64 = 0x0000_FFFF_FFFF_FFFF;

/// Where an enumeration goes on, and the change numbers that it covers.
#[derive(Clone, Copy)]
pub struct MftEnumDataV0 {
    pub start_file_reference_number: u64,
    pub low_usn: i64,
    pub high_usn: i64,
}

/// The state of the change journal.
#[derive(Clone, Copy)]
pub struct UsnJournalDataV0 {
    pub usn_journal_id: u64,
    pub first_usn: i64,
    pub next_usn: i64,
    pub lowest_valid_usn: i64,
    pub max_usn: i64,
    pub maximum_size: u64,
    pub allocation_delta: u64,
}

/// The fixed part of a record. The name follows it.
#[derive(Clone, Copy)]
pub struct UsnRecordV2 {
    pub record_length: u32,
    pub major_version: u16,
    pub minor_version: u16,
    pub file_reference_number: u64,
    pub parent_file_reference_number: u64,
    pub usn: i64,
    pub time_stamp: i64,
    pub reason: u32,
    pub source_info: u32,
    pub security_id: u32,
    pub file_attributes: u32,
    pub file_name_length: u16,
    pub file_name_offset: u16,
}

/// The room that the fixed part of a record takes, padding included.
pub const RECORD_HEADER_SIZE: usize = 64;

/// What is kept of a record. The name lies in the arena of the scan.
#[derive(Clone, Copy)]
pub struct MftRawEntry {
    pub file_ref: u64,
    pub parent_ref: u64,
    pub name_off: u32,
    pub name_len: u16,
    pub is_dir: bool,
    pub is_hidden: bool,
    pub modified: u64,
}

} // verus!
