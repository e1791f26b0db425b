//! What is noted of a record, told on the bytes of the record.

use crate::mft::records::{record_at, u16_at, u32_at, u64_at, units_at};
use crate::mft::scanner::{
    kept_names, name_of, read_error_text, seconds_of, valid_filename, Scanned,
    FILE_ATTRIBUTE_DIRECTORY, FILE_ATTRIBUTE_HIDDEN,
};
use crate::mft::types::{MftRawEntry, UsnRecordV2, FILE_REF_MASK};
use crate::mft::utf16::name_bytes;
use crate::text::{decimal, law_decimal_tells_the_number, number_told};
use vstd::prelude::*;
use vstd::utf8::{
    encode_scalar, encode_utf8, encode_utf8_decode_utf8, is_ascii_chars, is_ascii_chars_encode_utf8,
};

verus! {

/// The number in `n` bytes, the least byte first.
pub open spec fn number_at(data: Seq<u8>, at: int, n: nat) -> nat
    decreases n,
{
    if n == 0 {
        0
    } else {
        data[at] as nat + 0x100 * number_at(data, at + 1, (n - 1) as nat)
    }
}

/// The entry notes the record that begins at `at`: the two references without the two bytes of
/// their sequence numbers, the two attribute bits, and the whole seconds from the first moment of
/// 1970 to the time stamp, none where that lies before.
pub open spec fn notes_record(e: MftRawEntry, data: Seq<u8>, at: int) -> bool {
    let tenths = number_at(data, at + 32, 8) - 116_444_736_000_000_000;
    &&& e.file_ref == number_at(data, at + 8, 6)
    &&& e.parent_ref == number_at(data, at + 16, 6)
    &&& e.is_dir <==> (data[at + 52] / 16) % 2 == 1
    &&& e.is_hidden <==> (data[at + 52] / 2) % 2 == 1
    &&& tenths < 10_000_000 ==> e.modified == 0
    &&& tenths >= 0 ==> e.modified * 10_000_000 <= tenths < (e.modified + 1) * 10_000_000
}

/// The record tells its length in its first four bytes, and neither that nor its fixed part runs
/// out of the data.
pub open spec fn is_record(data: Seq<u8>, at: int) -> bool {
    &&& 0 <= at
    &&& at + 64 <= data.len()
    &&& 1 <= number_at(data, at, 4) <= 65536
}

/// The units of the name of the record that begins at `at`: how many bytes and from where on is told
/// in it.
pub open spec fn units_in(data: Seq<u8>, at: int) -> Seq<u16> {
    let from = at + number_at(data, at + 58, 2);
    Seq::new(
        number_at(data, at + 56, 2) / 2,
        |i: int| number_at(data, from + 2 * i, 2) as u16,
    )
}

/// The record has a name, all of it lies in the data, and it is one of those that are kept.
pub open spec fn is_kept_record(data: Seq<u8>, at: int) -> bool {
    &&& units_in(data, at).len() > 0
    &&& at + number_at(data, at + 58, 2) + 2 * units_in(data, at).len() <= data.len()
    &&& valid_filename(name_bytes(units_in(data, at)))
}

/// Where the kept records from `at` on begin. Each record begins where the one before it ends.
pub open spec fn kept_starts(data: Seq<u8>, at: int) -> Seq<int>
    decreases data.len() + 65536 - at,
{
    if !is_record(data, at) {
        Seq::empty()
    } else {
        (if is_kept_record(data, at) {
            seq![at]
        } else {
            Seq::empty()
        }) + kept_starts(data, at + number_at(data, at, 4))
    }
}

/// Where the last of the records from `at` on begins, kept or not.
pub open spec fn last_start(data: Seq<u8>, at: int) -> Option<int>
    decreases data.len() + 65536 - at,
{
    if !is_record(data, at) {
        None
    } else {
        match last_start(data, at + number_at(data, at, 4)) {
            Some(last) => Some(last),
            None => Some(at),
        }
    }
}

proof fn lemma_numbers(data: Seq<u8>, at: int)
    ensures
        u16_at(data, at) == number_at(data, at, 2),
        u32_at(data, at) == number_at(data, at, 4),
        u64_at(data, at) == number_at(data, at, 8),
        u64_at(data, at) == number_at(data, at, 6) + 0x1_0000_0000_0000 * number_at(
            data,
            at + 6,
            2,
        ),
        number_at(data, at, 6) < 0x1_0000_0000_0000,
{
    reveal_with_fuel(number_at, 9);
}

/// The time in whole seconds.
proof fn lemma_seconds(stamp: u64)
    ensures
        ({
            let secs = seconds_of(stamp as i64);
            let tenths = stamp - 116_444_736_000_000_000;
            &&& tenths < 10_000_000 ==> secs == 0
            &&& tenths >= 0 ==> secs * 10_000_000 <= tenths < (secs + 1) * 10_000_000
        }),
{
    assert((stamp as i64) as u64 == stamp) by (bit_vector);
}

/// The mask leaves the lower six bytes of a reference.
proof fn lemma_reference(data: Seq<u8>, at: int)
    ensures
        u64_at(data, at) & FILE_REF_MASK == number_at(data, at, 6),
{
    lemma_numbers(data, at);
    lemma_low_bits(u64_at(data, at), number_at(data, at, 6), number_at(data, at + 6, 2));
}

proof fn lemma_low_bits(whole: u64, low: nat, high: nat)
    requires
        whole == low + 0x1_0000_0000_0000 * high,
        low < 0x1_0000_0000_0000,
    ensures
        whole & FILE_REF_MASK == low,
        whole % 0x1_0000_0000_0000 == low,
{
    assert(whole & 0x0000_FFFF_FFFF_FFFF == whole % 0x1_0000_0000_0000) by (bit_vector);
}

/// The two attribute bits stand in the first byte of the attributes.
proof fn lemma_attributes(data: Seq<u8>, at: int)
    ensures
        u32_at(data, at) & FILE_ATTRIBUTE_DIRECTORY != 0 <==> (data[at] / 16) % 2 == 1,
        u32_at(data, at) & FILE_ATTRIBUTE_HIDDEN != 0 <==> (data[at] / 2) % 2 == 1,
{
    let whole = u32_at(data, at);
    let first = data[at];
    lemma_numbers(data, at);
    let rest = number_at(data, at + 1, 3);
    assert(whole == first + 0x100 * rest);
    assert(whole % 0x100 == first);
    assert(whole & 0x10 != 0 <==> ((whole % 0x100) / 16) % 2 == 1) by (bit_vector);
    assert(whole & 0x2 != 0 <==> ((whole % 0x100) / 2) % 2 == 1) by (bit_vector);
}

/// An entry notes its record.
proof fn lemma_noted(s: Scanned, data: Seq<u8>, at: int, name: Seq<u8>)
    ensures
        notes_record(s.with_record(record_at(data, at), Some(name)).entries.last(), data, at),
{
    lemma_reference(data, at + 8);
    lemma_reference(data, at + 16);
    lemma_attributes(data, at + 52);
    lemma_numbers(data, at + 32);
    lemma_seconds(u64_at(data, at + 32));
}

/// A scan notes exactly the kept records, in their order and behind what was noted before: of each
/// its references, its two attribute bits and its time, as its bytes tell them. It goes on from the
/// reference of the last record that it came upon, kept or not.
pub proof fn law_scan_notes_the_kept_records(s: Scanned, data: Seq<u8>, at: int)
    requires
        0 <= at,
    ensures
        s.with_records(data, at).entries.len() == s.entries.len() + kept_starts(data, at).len(),
        forall|i: int|
            0 <= i < s.entries.len() ==> #[trigger] s.with_records(data, at).entries[i]
                == s.entries[i],
        forall|k: int|
            0 <= k < kept_starts(data, at).len() ==> notes_record(
                s.with_records(data, at).entries[s.entries.len() + k],
                data,
                #[trigger] kept_starts(data, at)[k],
            ),
        s.with_records(data, at).start == match last_start(data, at) {
            Some(last) => number_at(data, last + 8, 8) as int,
            None => s.start as int,
        },
    decreases data.len() + 65536 - at,
{
    lemma_numbers(data, at);
    if is_record(data, at) {
        let record = record_at(data, at);
        let name = name_of(record, data, at);
        let next = s.with_record(record, name);
        let to = at + record.record_length;
        lemma_kept_record(data, at);
        lemma_numbers(data, at + 8);
        law_scan_notes_the_kept_records(next, data, to);
        let all = s.with_records(data, at);
        assert(all == next.with_records(data, to));
        assert forall|i: int| 0 <= i < s.entries.len() implies #[trigger] all.entries[i]
            == s.entries[i] by {
            assert(all.entries[i] == next.entries[i]);
        }
        let here = if is_kept_record(data, at) {
            seq![at]
        } else {
            Seq::empty()
        };
        let rest = kept_starts(data, to);
        assert(kept_starts(data, at) == here + rest);
        if let Some(name) = name {
            lemma_noted(s, data, at, name);
            assert(all.entries[s.entries.len() as int] == next.entries[s.entries.len() as int]);
        }
        assert forall|k: int| 0 <= k < kept_starts(data, at).len() implies notes_record(
            all.entries[s.entries.len() + k],
            data,
            #[trigger] kept_starts(data, at)[k],
        ) by {
            if k >= here.len() {
                assert(rest[k - here.len()] == kept_starts(data, at)[k]);
                assert(notes_record(
                    all.entries[next.entries.len() + (k - here.len())],
                    data,
                    rest[k - here.len()],
                ));
            }
        }
    }
}

proof fn lemma_kept_record(data: Seq<u8>, at: int)
    ensures
        name_of(record_at(data, at), data, at) == if is_kept_record(data, at) {
            Some(name_bytes(units_in(data, at)))
        } else {
            None
        },
{
    let record = record_at(data, at);
    lemma_numbers(data, at + 56);
    lemma_numbers(data, at + 58);
    let from = at + number_at(data, at + 58, 2);
    let units = units_at(data, from, (record.file_name_length / 2) as nat);
    assert forall|i: int| 0 <= i < units.len() implies #[trigger] units[i] == units_in(data, at)[i] by {
        lemma_numbers(data, from + 2 * i);
    }
    assert(units =~= units_in(data, at));
}

/// The kept names are those of the kept records, one by one.
pub proof fn law_kept_names_are_those_of_the_kept_records(data: Seq<u8>, at: int)
    requires
        0 <= at,
    ensures
        kept_names(data, at).len() == kept_starts(data, at).len(),
        forall|k: int|
            0 <= k < kept_starts(data, at).len() ==> kept_names(data, at)[k] == name_bytes(
                units_in(data, #[trigger] kept_starts(data, at)[k]),
            ),
    decreases data.len() + 65536 - at,
{
    lemma_numbers(data, at);
    if is_record(data, at) {
        let to = at + number_at(data, at, 4);
        lemma_kept_record(data, at);
        law_kept_names_are_those_of_the_kept_records(data, to);
        let here = if is_kept_record(data, at) {
            seq![at]
        } else {
            Seq::empty()
        };
        let rest = kept_starts(data, to);
        assert(kept_starts(data, at) == here + rest);
        assert forall|k: int| 0 <= k < kept_starts(data, at).len() implies kept_names(data, at)[k]
            == name_bytes(units_in(data, #[trigger] kept_starts(data, at)[k])) by {
            if k >= here.len() {
                assert(rest[k - here.len()] == kept_starts(data, at)[k]);
                assert(kept_names(data, at)[k] == kept_names(data, to)[k - here.len()]);
            }
        }
    }
}

/// The directory mark of an entry is bit 4 of the attributes and the hidden mark is bit 1, whatever
/// the other bits are: attributes that differ in other bits only give the same mark, and setting
/// the bit sets the mark.
pub proof fn law_marks_are_single_bits(s: Scanned, record: UsnRecordV2, name: Seq<u8>, mask: u32)
    ensures
        s.with_record(record, Some(name)).entries.last().is_dir <==> (record.file_attributes / 16)
            % 2 == 1,
        s.with_record(record, Some(name)).entries.last().is_hidden <==> (record.file_attributes / 2)
            % 2 == 1,
        mask & 0x10 == 0 ==> s.with_record(
            with_attributes(record, record.file_attributes | mask),
            Some(name),
        ).entries.last().is_dir == s.with_record(record, Some(name)).entries.last().is_dir,
        mask & 0x2 == 0 ==> s.with_record(
            with_attributes(record, record.file_attributes | mask),
            Some(name),
        ).entries.last().is_hidden == s.with_record(record, Some(name)).entries.last().is_hidden,
        s.with_record(
            with_attributes(record, record.file_attributes | 0x10),
            Some(name),
        ).entries.last().is_dir,
        s.with_record(
            with_attributes(record, record.file_attributes | 0x2),
            Some(name),
        ).entries.last().is_hidden,
{
    let a = record.file_attributes;
    assert(a & 0x10 != 0 <==> (a / 16) % 2 == 1) by (bit_vector);
    assert(a & 0x2 != 0 <==> (a / 2) % 2 == 1) by (bit_vector);
    assert(mask & 0x10 == 0 ==> (a | mask) & 0x10 == a & 0x10) by (bit_vector);
    assert(mask & 0x2 == 0 ==> (a | mask) & 0x2 == a & 0x2) by (bit_vector);
    assert((a | 0x10) & 0x10 != 0 && (a | 0x2) & 0x2 != 0) by (bit_vector);
}

/// The record with other attributes.
pub open spec fn with_attributes(record: UsnRecordV2, attributes: u32) -> UsnRecordV2 {
    UsnRecordV2 { file_attributes: attributes, ..record }
}

/// A noted record keeps the lower 48 bits of its two references, whatever their sequence numbers
/// are, and its time in whole seconds since 1970.
pub proof fn law_references_and_time_are_kept(s: Scanned, record: UsnRecordV2, name: Seq<u8>)
    ensures
        s.with_record(record, Some(name)).entries.last().file_ref == record.file_reference_number
            % 0x1_0000_0000_0000,
        s.with_record(record, Some(name)).entries.last().parent_ref
            == record.parent_file_reference_number % 0x1_0000_0000_0000,
        0 <= record.time_stamp < 116_444_736_010_000_000 ==> s.with_record(
            record,
            Some(name),
        ).entries.last().modified == 0,
        record.time_stamp >= 116_444_736_000_000_000 ==> ({
            let secs = s.with_record(record, Some(name)).entries.last().modified;
            secs * 10_000_000 <= record.time_stamp - 116_444_736_000_000_000 < (secs + 1)
                * 10_000_000
        }),
        s.with_record(record, Some(name)).start == record.file_reference_number,
        s.with_record(record, None).start == record.file_reference_number,
        s.with_record(record, None).entries == s.entries,
        s.with_record(record, None).arena == s.arena,
        s.with_record(record, Some(name)).arena == s.arena + name,
{
    let file = record.file_reference_number;
    let parent = record.parent_file_reference_number;
    let stamp = record.time_stamp;
    assert(file & 0x0000_FFFF_FFFF_FFFF == file % 0x1_0000_0000_0000) by (bit_vector);
    assert(parent & 0x0000_FFFF_FFFF_FFFF == parent % 0x1_0000_0000_0000) by (bit_vector);
    if stamp >= 0 {
        assert(stamp as u64 == stamp);
    }
}

/// Only a dollar sign is spelled with the byte of the dollar sign first.
proof fn lemma_first_byte(text: Seq<char>)
    requires
        text.len() > 0,
    ensures
        encode_utf8(text)[0] == 0x24 <==> text[0] == '$',
{
    assert(encode_utf8(text)[0] == encode_scalar(text[0] as u32)[0]);
    lemma_first_byte_of(text[0]);
}

proof fn lemma_first_byte_of(c: char)
    ensures
        encode_scalar(c as u32)[0] == 0x24 <==> c == '$',
{
    let v = c as u32;
    assert(v <= 0x7f ==> (v & 0x7f) as u8 == v) by (bit_vector);
    assert((0xC0u8 | ((v >> 6) & 0x1F) as u8) >= 0x80 && (0xE0u8 | ((v >> 12) & 0x0F) as u8) >= 0x80
        && (0xF0u8 | ((v >> 18) & 0x7) as u8) >= 0x80) by (bit_vector);
}

/// A text is kept as a name unless it is empty, is one dot or two, or begins with a dollar sign.
pub proof fn law_texts_are_kept_as_names(text: Seq<char>)
    ensures
        valid_filename(encode_utf8(text)) <==> {
            &&& text.len() > 0
            &&& text != seq!['.']
            &&& text != seq!['.', '.']
            &&& text[0] != '$'
        },
{
    reveal_with_fuel(encode_utf8, 3);
    let one = seq!['.'];
    let two = seq!['.', '.'];
    assert(is_ascii_chars(one) && is_ascii_chars(two));
    is_ascii_chars_encode_utf8(one);
    is_ascii_chars_encode_utf8(two);
    assert(encode_utf8(one) =~= seq![0x2eu8]);
    assert(encode_utf8(two) =~= seq![0x2eu8, 0x2eu8]);
    encode_utf8_decode_utf8(text);
    encode_utf8_decode_utf8(one);
    encode_utf8_decode_utf8(two);
    if text.len() > 0 {
        lemma_first_byte(text);
    }
}

/// A noted name is read back, or its first 65535 bytes where it is longer, as long as the arena stays
/// within 32-bit offsets.
pub proof fn law_long_noted_name_is_cut_short(s: Scanned, record: UsnRecordV2, name: Seq<u8>)
    requires
        s.arena.len() + name.len() <= u32::MAX,
    ensures
        name.len() > 65535 ==> s.with_record(record, Some(name)).name(s.entries.len() as int)
            == name.take(65535),
        name.len() <= 65535 ==> s.with_record(record, Some(name)).name(s.entries.len() as int)
            == name,
{
    let t = s.with_record(record, Some(name));
    let kept = t.name(s.entries.len() as int);
    if name.len() > 65535 {
        assert(kept =~= name.take(65535));
    } else {
        assert(kept =~= name);
    }
}

/// The message for a failed read ends with the error code in decimal.
pub proof fn law_message_tells_the_code(code: u32)
    ensures
        read_error_text(code).len() > 16,
        read_error_text(code).take(16) == "MFT read error: "@,
        number_told(read_error_text(code).skip(16)) == code,
        forall|i: int|
            16 <= i < read_error_text(code).len() ==> '0' <= #[trigger] read_error_text(code)[i]
                <= '9',
{
    let text = read_error_text(code);
    let digits = decimal(code as nat);
    reveal_strlit("MFT read error: ");
    law_decimal_tells_the_number(code as nat);
    assert(text.take(16) =~= "MFT read error: "@);
    assert(text.skip(16) =~= digits);
    assert forall|i: int| 16 <= i < text.len() implies '0' <= #[trigger] text[i] <= '9' by {
        assert(text[i] == digits[i - 16]);
    }
}

} // verus!
