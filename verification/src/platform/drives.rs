//! Which drives there are.

use crate::types::drive::DriveInfo;
use vstd::prelude::*;

verus! {

/// The system's code for a removable drive.
pub const DRIVE_REMOVABLE: u32 = 2;

/// The system's code for a fixed drive.
pub const DRIVE_FIXED: u32 = 3;

/// What a kind of drive is called.
pub open spec fn drive_type_text(code: u32) -> Seq<char> {
    if code == DRIVE_FIXED {
        "Локальный диск"@
    } else if code == DRIVE_REMOVABLE {
        "Съёмный диск"@
    } else {
        "Другой"@
    }
}

/// What a drive is called whose kind has this code.
pub fn get_drive_type_string(code: u32) -> (text: String)
    ensures
        text@ == drive_type_text(code),
{
    if code == DRIVE_FIXED {
        "Локальный диск".to_owned()
    } else if code == DRIVE_REMOVABLE {
        "Съёмный диск".to_owned()
    } else {
        "Другой".to_owned()
    }
}

/// The letters under which drives are looked for: those from `C` to `Z`.
pub open spec fn letters() -> Seq<char> {
    Seq::new(24, |i: int| (0x43 + i) as u32 as char)
}

/// The letters under which drives are looked for.
pub fn drive_letters() -> (out: Vec<char>)
    ensures
        out@ == letters(),
{
    let mut out: Vec<char> = Vec::with_capacity(24);
    let mut letter: u8 = 0x43;
    while letter <= 0x5a
        invariant
            0x43 <= letter <= 0x5b,
            out@.len() == letter - 0x43,
            forall|i: int| 0 <= i < out@.len() ==> #[trigger] out@[i] == (0x43 + i) as u32 as char,
        decreases 0x5b - letter,
    {
        out.push(letter as char);
        letter += 1;
    }
    assert(out@ =~= letters());
    out
}

/// What was found out about a letter: whether there is such a drive, and the code of its kind.
#[derive(Clone, Copy)]
pub struct DriveProbe {
    pub letter: char,
    pub exists: bool,
    pub type_code: u32,
}

/// The letters and codes of the drives that there are.
pub open spec fn existing(probes: Seq<DriveProbe>) -> Seq<(char, u32)>
    decreases probes.len(),
{
    if probes.len() == 0 {
        Seq::empty()
    } else if probes.last().exists {
        existing(probes.drop_last()).push((probes.last().letter, probes.last().type_code))
    } else {
        existing(probes.drop_last())
    }
}

/// Only fixed and removable drives, those with the codes three and two, have names of their own.
pub proof fn law_kinds_are_told_by_their_codes(code: u32)
    ensures
        code == 3 ==> drive_type_text(code) == "Локальный диск"@,
        code == 2 ==> drive_type_text(code) == "Съёмный диск"@,
        code < 2 || code > 3 ==> drive_type_text(code) == "Другой"@,
{
}

/// Drives are looked for under the capital letters from `C` to `Z`, each once and in order.
pub proof fn law_letters_run_from_c_to_z(i: int)
    requires
        0 <= i < 24,
    ensures
        letters().len() == 24,
        letters()[i] as u32 == 'C' as u32 + i,
        'C' <= letters()[i] <= 'Z',
{
}

/// The drives that there are, are the probed ones that exist, in the order of the probes, each with
/// its own letter and code.
pub proof fn law_existing_drives_are_kept_in_order(probes: Seq<DriveProbe>)
    ensures
        existing(probes) == probes.filter(|p: DriveProbe| p.exists).map_values(
            |p: DriveProbe| (p.letter, p.type_code),
        ),
    decreases probes.len(),
{
    reveal(Seq::filter);
    let exists_there = |p: DriveProbe| p.exists;
    let found = |p: DriveProbe| (p.letter, p.type_code);
    if probes.len() > 0 {
        law_existing_drives_are_kept_in_order(probes.drop_last());
        assert(existing(probes) =~= probes.filter(exists_there).map_values(found));
    } else {
        assert(existing(probes) =~= probes.filter(exists_there).map_values(found));
    }
}

/// The drives are described as available, with what their kinds are called.
pub open spec fn describes(drives: Seq<DriveInfo>, found: Seq<(char, u32)>) -> bool {
    &&& drives.len() == found.len()
    &&& forall|i: int|
        0 <= i < drives.len() ==> {
            &&& (#[trigger] drives[i]).letter == found[i].0
            &&& drives[i].drive_type@ == drive_type_text(found[i].1)
            &&& drives[i].available
        }
}

/// A described drive is one that was probed and exists, is available, and is called by the code of
/// its kind; there are as many as exist.
pub proof fn law_described_drives_were_probed(
    drives: Seq<DriveInfo>,
    probes: Seq<DriveProbe>,
    i: int,
)
    requires
        describes(drives, existing(probes)),
        0 <= i < drives.len(),
    ensures
        drives.len() == probes.filter(|p: DriveProbe| p.exists).len(),
        drives[i].available,
        exists|j: int|
            {
                &&& 0 <= j < probes.len()
                &&& (#[trigger] probes[j]).exists
                &&& probes[j].letter == drives[i].letter
                &&& probes[j].type_code == 3 ==> drives[i].drive_type@ == "Локальный диск"@
                &&& probes[j].type_code == 2 ==> drives[i].drive_type@ == "Съёмный диск"@
                &&& probes[j].type_code < 2 || probes[j].type_code > 3 ==> drives[i].drive_type@
                    == "Другой"@
            },
{
    law_existing_drives_are_kept_in_order(probes);
    let there = |p: DriveProbe| p.exists;
    let kept = probes.filter(there);
    probes.lemma_filter_contains_rev(there, kept[i]);
    assert(kept.contains(kept[i]));
    let j = choose|j: int| 0 <= j < probes.len() && probes[j] == kept[i];
    assert(probes[j].exists);
    law_kinds_are_told_by_their_codes(probes[j].type_code);
}

/// The drives that there are, in the order in which they were looked for.
pub fn list_available_drives(probes: &Vec<DriveProbe>) -> (drives: Vec<DriveInfo>)
    ensures
        describes(drives@, existing(probes@)),
{
    let mut drives: Vec<DriveInfo> = Vec::new();
    let mut i: usize = 0;
    while i < probes.len()
        invariant
            i <= probes@.len(),
            describes(drives@, existing(probes@.take(i as int))),
        decreases probes@.len() - i,
    {
        let probe = probes[i];
        assert(probes@.take(i + 1).drop_last() =~= probes@.take(i as int));
        if probe.exists {
            drives.push(
                DriveInfo {
                    letter: probe.letter,
                    drive_type: get_drive_type_string(probe.type_code),
                    available: true,
                },
            );
        }
        i += 1;
    }
    assert(probes@.take(i as int) =~= probes@);
    drives
}

} // verus!
