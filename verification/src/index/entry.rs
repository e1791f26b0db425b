//! One file or directory of the index.

use vstd::prelude::*;

verus! {

/// A file or directory. Its texts lie in the arena of the index, at the offsets given here.
#[derive(Clone, Copy)]
pub struct Entry {
    pub name_off: u32,
    pub name_len: u16,
    pub name_lower_off: u32,
    pub name_lower_len: u16,
    pub path_off: u32,
    pub path_len: u32,
    pub size: u64,
    pub modified: u64,
    pub flags: u16,
}

/// Bit 0 marks a directory.
pub open spec fn marks_dir(flags: u16) -> bool {
    flags & 0x01 != 0
}

/// Bit 1 marks a hidden entry.
pub open spec fn marks_hidden(flags: u16) -> bool {
    flags & 0x02 != 0
}

/// The flags of an entry.
pub open spec fn flags_of(is_dir: bool, is_hidden: bool) -> u16 {
    (if is_dir {
        0x01u16
    } else {
        0x00u16
    }) | (if is_hidden {
        0x02u16
    } else {
        0x00u16
    })
}

/// The flags tell what they were made from.
pub proof fn lemma_flags_read_back(is_dir: bool, is_hidden: bool)
    ensures
        marks_dir(flags_of(is_dir, is_hidden)) == is_dir,
        marks_hidden(flags_of(is_dir, is_hidden)) == is_hidden,
{
    assert((1u16 | 2u16) & 1u16 == 1u16 && (1u16 | 2u16) & 2u16 == 2u16) by (bit_vector);
    assert((1u16 | 0u16) & 1u16 == 1u16 && (1u16 | 0u16) & 2u16 == 0u16) by (bit_vector);
    assert((0u16 | 2u16) & 1u16 == 0u16 && (0u16 | 2u16) & 2u16 == 2u16) by (bit_vector);
    assert((0u16 | 0u16) & 1u16 == 0u16 && (0u16 | 0u16) & 2u16 == 0u16) by (bit_vector);
}

/// The lowest bit of the flags marks a directory and the next one a hidden entry, whatever the
/// other bits are.
pub proof fn law_marks_are_the_lowest_bits(flags: u16)
    ensures
        marks_dir(flags) <==> flags % 2 == 1,
        marks_hidden(flags) <==> (flags / 2) % 2 == 1,
{
    assert(flags & 0x01 != 0 <==> flags % 2 == 1) by (bit_vector);
    assert(flags & 0x02 != 0 <==> (flags / 2) % 2 == 1) by (bit_vector);
}

/// The flags of an entry.
pub(crate) fn make_flags(is_dir: bool, is_hidden: bool) -> (flags: u16)
    ensures
        flags == flags_of(is_dir, is_hidden),
{
    let mut flags: u16 = 0;
    if is_dir {
        flags = 0x01;
    }
    if is_hidden {
        flags = flags | 0x02;
    } else {
        assert(flags | 0u16 == flags) by (bit_vector);
    }
    flags
}

impl Entry {
    pub fn is_dir(&self) -> (b: bool)
        ensures
            b == marks_dir(self.flags),
    {
        (self.flags & 0x01) != 0
    }

    pub fn is_hidden(&self) -> (b: bool)
        ensures
            b == marks_hidden(self.flags),
    {
        (self.flags & 0x02) != 0
    }
}

} // verus!
