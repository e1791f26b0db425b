//! Reading the numbers of a record.

use crate::mft::types::{UsnRecordV2, RECORD_HEADER_SIZE};
use vstd::prelude::*;

verus! {

/// The little-endian number in two bytes.
pub open spec fn u16_at(data: Seq<u8>, at: int) -> u16 {
    (data[at] + 0x100 * data[at + 1]) as u16
}

/// The little-endian number in four bytes.
pub open spec fn u32_at(data: Seq<u8>, at: int) -> u32 {
    (u16_at(data, at) + 0x1_0000 * u16_at(data, at + 2)) as u32
}

/// The little-endian number in eight bytes.
pub open spec fn u64_at(data: Seq<u8>, at: int) -> u64 {
    (u32_at(data, at) + 0x1_0000_0000 * u32_at(data, at + 4)) as u64
}

fn read_u16(data: &[u8], at: usize) -> (x: u16)
    requires
        at + 2 <= data@.len(),
    ensures
        x == u16_at(data@, at as int),
{
    assert(data.len() == data@.len());
    data[at] as u16 + 0x100 * (data[at + 1] as u16)
}

fn read_u32(data: &[u8], at: usize) -> (x: u32)
    requires
        at + 4 <= data@.len(),
    ensures
        x == u32_at(data@, at as int),
{
    assert(data.len() == data@.len());
    read_u16(data, at) as u32 + 0x1_0000 * (read_u16(data, at + 2) as u32)
}

fn read_u64(data: &[u8], at: usize) -> (x: u64)
    requires
        at + 8 <= data@.len(),
    ensures
        x == u64_at(data@, at as int),
{
    assert(data.len() == data@.len());
    read_u32(data, at) as u64 + 0x1_0000_0000 * (read_u32(data, at + 4) as u64)
}

/// The fixed part of the record at `at`.
pub open spec fn record_at(data: Seq<u8>, at: int) -> UsnRecordV2 {
    UsnRecordV2 {
        record_length: u32_at(data, at),
        major_version: u16_at(data, at + 4),
        minor_version: u16_at(data, at + 6),
        file_reference_number: u64_at(data, at + 8),
        parent_file_reference_number: u64_at(data, at + 16),
        usn: u64_at(data, at + 24) as i64,
        time_stamp: u64_at(data, at + 32) as i64,
        reason: u32_at(data, at + 40),
        source_info: u32_at(data, at + 44),
        security_id: u32_at(data, at + 48),
        file_attributes: u32_at(data, at + 52),
        file_name_length: u16_at(data, at + 56),
        file_name_offset: u16_at(data, at + 58),
    }
}

/// Reads the fixed part of the record at `at`.
pub(crate) fn read_record(data: &[u8], at: usize) -> (record: UsnRecordV2)
    requires
        at + RECORD_HEADER_SIZE <= data@.len(),
    ensures
        record == record_at(data@, at as int),
{
    assert(data.len() == data@.len());
    UsnRecordV2 {
        record_length: read_u32(data, at),
        major_version: read_u16(data, at + 4),
        minor_version: read_u16(data, at + 6),
        file_reference_number: read_u64(data, at + 8),
        parent_file_reference_number: read_u64(data, at + 16),
        usn: #[verifier::truncate] (read_u64(data, at + 24) as i64),
        time_stamp: #[verifier::truncate] (read_u64(data, at + 32) as i64),
        reason: read_u32(data, at + 40),
        source_info: read_u32(data, at + 44),
        security_id: read_u32(data, at + 48),
        file_attributes: read_u32(data, at + 52),
        file_name_length: read_u16(data, at + 56),
        file_name_offset: read_u16(data, at + 58),
    }
}

/// The UTF-16 units from `at` on.
pub open spec fn units_at(data: Seq<u8>, at: int, count: nat) -> Seq<u16> {
    Seq::new(count, |i: int| u16_at(data, at + 2 * i))
}

pub(crate) fn read_units(data: &[u8], at: usize, count: usize) -> (units: Vec<u16>)
    requires
        at + 2 * count <= data@.len(),
    ensures
        units@ == units_at(data@, at as int, count as nat),
{
    assert(data.len() == data@.len());
    let mut units: Vec<u16> = Vec::with_capacity(count);
    let mut i: usize = 0;
    while i < count
        invariant
            i <= count,
            at + 2 * count <= data@.len() == data.len(),
            units@.len() == i,
            forall|j: int| 0 <= j < i ==> #[trigger] units@[j] == u16_at(data@, at + 2 * j),
        decreases count - i,
    {
        units.push(read_u16(data, at + 2 * i));
        i += 1;
    }
    assert(units@ =~= units_at(data@, at as int, count as nat));
    units
}

} // verus!
