//! Recoding names from UTF-16 to UTF-8.

use vstd::prelude::*;
use vstd::utf8::{encode_scalar, encode_utf8};

verus! {

/// A UTF-16 unit that announces a pair.
pub open spec fn high_surrogate(unit: u16) -> bool {
    0xD800 <= unit <= 0xDBFF
}

/// A UTF-16 unit that completes a pair.
pub open spec fn low_surrogate(unit: u16) -> bool {
    0xDC00 <= unit <= 0xDFFF
}

/// The units begin with a pair that stands for one character.
pub open spec fn starts_with_pair(units: Seq<u16>) -> bool {
    units.len() >= 2 && high_surrogate(units[0]) && low_surrogate(units[1])
}

/// The character that a pair stands for.
pub open spec fn pair_char(high: u16, low: u16) -> char {
    (0x10000 + (high - 0xD800) * 0x400 + (low - 0xDC00)) as u32 as char
}

/// The text that some units spell; none where a surrogate stands alone.
pub open spec fn decoded(units: Seq<u16>) -> Option<Seq<char>>
    decreases units.len(),
{
    if units.len() == 0 {
        Some(Seq::empty())
    } else if starts_with_pair(units) {
        match decoded(units.skip(2)) {
            Some(rest) => Some(seq![pair_char(units[0], units[1])] + rest),
            None => None,
        }
    } else if high_surrogate(units[0]) || low_surrogate(units[0]) {
        None
    } else {
        match decoded(units.skip(1)) {
            Some(rest) => Some(seq![units[0] as char] + rest),
            None => None,
        }
    }
}

/// The bytes of a name: those of the text that the units spell. A surrogate that stands alone spells
/// no character; it is kept as the three bytes of its number.
pub open spec fn name_bytes(units: Seq<u16>) -> Seq<u8>
    decreases units.len(),
{
    if units.len() == 0 {
        Seq::empty()
    } else if starts_with_pair(units) {
        encode_scalar(pair_char(units[0], units[1]) as u32) + name_bytes(units.skip(2))
    } else {
        unit_bytes(units[0]) + name_bytes(units.skip(1))
    }
}

/// The units that spell a character.
pub open spec fn units_of(c: char) -> Seq<u16> {
    let v = c as u32;
    if v < 0x10000 {
        seq![v as u16]
    } else {
        seq![(0xD800 + (v - 0x10000) / 0x400) as u16, (0xDC00 + (v - 0x10000) % 0x400) as u16]
    }
}

/// The units that spell a text.
pub open spec fn spelled(text: Seq<char>) -> Seq<u16>
    decreases text.len(),
{
    if text.len() == 0 {
        Seq::empty()
    } else {
        units_of(text[0]) + spelled(text.skip(1))
    }
}

/// The one, two or three bytes into which a UTF-16 unit that stands for itself is recoded.
pub open spec fn unit_bytes(unit: u16) -> Seq<u8> {
    if unit < 0x80 {
        seq![unit as u8]
    } else if unit < 0x800 {
        seq![(0xC0 + unit / 64) as u8, (0x80 + unit % 64) as u8]
    } else {
        seq![
            (0xE0 + unit / 4096) as u8,
            (0x80 + (unit / 64) % 64) as u8,
            (0x80 + unit % 64) as u8,
        ]
    }
}

/// The bytes into which a unit is recoded tell the unit: one byte the unit itself, two or three
/// bytes its bits from the highest down, six in each byte behind the first.
pub proof fn law_bytes_tell_the_unit(unit: u16)
    ensures
        unit < 0x80 ==> unit_bytes(unit).len() == 1 && unit_bytes(unit)[0] == unit,
        0x80 <= unit < 0x800 ==> unit_bytes(unit).len() == 2 && unit_bytes(unit)[0] >= 0xc2
            && 0x80 <= unit_bytes(unit)[1] <= 0xbf && (unit_bytes(unit)[0] - 0xc0) * 0x40 + (
        unit_bytes(unit)[1] - 0x80) == unit,
        unit >= 0x800 ==> unit_bytes(unit).len() == 3 && unit_bytes(unit)[0] >= 0xe0 && 0x80
            <= unit_bytes(unit)[1] <= 0xbf && 0x80 <= unit_bytes(unit)[2] <= 0xbf && (unit_bytes(
            unit,
        )[0] - 0xe0) * 0x1000 + (unit_bytes(unit)[1] - 0x80) * 0x40 + (unit_bytes(unit)[2] - 0x80)
            == unit,
{
}

/// A surrogate that stands alone keeps its place among the bytes of a name.
pub proof fn law_lone_surrogate_keeps_its_place(text: Seq<char>, unit: u16, rest: Seq<u16>)
    requires
        0xD800 <= unit <= 0xDFFF,
        unit >= 0xDC00 || rest.len() == 0 || !(0xDC00 <= rest[0] <= 0xDFFF),
    ensures
        name_bytes(spelled(text) + seq![unit] + rest) == encode_utf8(text) + unit_bytes(unit)
            + name_bytes(rest),
    decreases text.len(),
{
    let all = spelled(text) + seq![unit] + rest;
    if text.len() == 0 {
        assert(all.skip(1) =~= rest);
        assert(all[0] == unit);
        assert(rest.len() > 0 ==> all[1] == rest[0]);
        assert(name_bytes(all) =~= encode_utf8(text) + unit_bytes(unit) + name_bytes(rest));
    } else {
        let c = text[0];
        let fewer = text.skip(1);
        law_lone_surrogate_keeps_its_place(fewer, unit, rest);
        let behind = spelled(fewer) + seq![unit] + rest;
        assert(all =~= units_of(c) + behind);
        lemma_units_in_front(c, behind);
        assert(text.drop_first() =~= fewer);
        assert(name_bytes(all) =~= encode_utf8(text) + unit_bytes(unit) + name_bytes(rest));
    }
}

/// The bytes of a character stand before those of the units behind it.
proof fn lemma_units_in_front(c: char, behind: Seq<u16>)
    ensures
        name_bytes(units_of(c) + behind) == encode_scalar(c as u32) + name_bytes(behind),
{
    let all = units_of(c) + behind;
    let v = c as u32;
    vstd::utf8::char_is_scalar(c);
    assert(v as char == c) by {
        vstd::utf8::char_u32_cast(c, v);
    }
    if v >= 0x10000 {
        assert(all.skip(2) =~= behind);
        assert(starts_with_pair(all));
        assert(pair_char(all[0], all[1]) == c);
    } else {
        assert(all.skip(1) =~= behind);
        lemma_unit_is_scalar(all[0]);
    }
}

/// The bytes of some units, one after the other.
pub open spec fn recoded(units: Seq<u16>) -> Seq<u8>
    decreases units.len(),
{
    if units.len() == 0 {
        Seq::empty()
    } else {
        recoded(units.drop_last()) + unit_bytes(units.last())
    }
}

/// The units before the first that announces a pair.
pub open spec fn before_pairs(units: Seq<u16>) -> Seq<u16>
    decreases units.len(),
{
    if units.len() == 0 {
        units
    } else if high_surrogate(units[0]) {
        Seq::empty()
    } else {
        seq![units[0]] + before_pairs(units.skip(1))
    }
}

/// None of the units announces a pair.
pub open spec fn no_pairs(units: Seq<u16>) -> bool {
    forall|i: int| 0 <= i < units.len() ==> !high_surrogate(#[trigger] units[i])
}

pub(crate) proof fn lemma_recoded_push(units: Seq<u16>, unit: u16)
    ensures
        recoded(units.push(unit)) == recoded(units) + unit_bytes(unit),
{
    assert(units.push(unit).drop_last() =~= units);
}

/// What stands before the first pair is a prefix that holds none.
pub(crate) proof fn lemma_before_pairs(units: Seq<u16>, n: int)
    requires
        0 <= n <= units.len(),
        no_pairs(units.take(n)),
        n == units.len() || high_surrogate(units[n]),
    ensures
        before_pairs(units) == units.take(n),
    decreases n,
{
    if n > 0 {
        let rest = units.skip(1);
        assert(rest.take(n - 1) =~= units.take(n).skip(1));
        assert(!high_surrogate(units.take(n)[0]));
        assert forall|i: int| 0 <= i < n - 1 implies !high_surrogate(
            #[trigger] rest.take(n - 1)[i],
        ) by {
            assert(!high_surrogate(units.take(n)[i + 1]));
        }
        lemma_before_pairs(rest, n - 1);
        assert(seq![units[0]] + rest.take(n - 1) =~= units.take(n));
    } else {
        assert(units.take(0) =~= Seq::<u16>::empty());
    }
}

/// Where no surrogate stands alone, the name is the text that is spelled, in UTF-8.
pub proof fn law_well_formed_name_is_its_text(units: Seq<u16>)
    requires
        decoded(units) is Some,
    ensures
        name_bytes(units) == encode_utf8(decoded(units)->0),
    decreases units.len(),
{
    if units.len() > 0 {
        let text = decoded(units)->0;
        if starts_with_pair(units) {
            law_well_formed_name_is_its_text(units.skip(2));
            assert(text.drop_first() =~= decoded(units.skip(2))->0);
        } else {
            law_well_formed_name_is_its_text(units.skip(1));
            assert(text.drop_first() =~= decoded(units.skip(1))->0);
            lemma_unit_is_scalar(units[0]);
        }
    } else {
        assert(encode_utf8(Seq::<char>::empty()) =~= Seq::<u8>::empty());
    }
}

/// Every text is read back from the units that spell it.
pub proof fn law_spelled_text_is_read_back(text: Seq<char>)
    ensures
        decoded(spelled(text)) == Some(text),
        name_bytes(spelled(text)) == encode_utf8(text),
    decreases text.len(),
{
    let units = spelled(text);
    if text.len() > 0 {
        let c = text[0];
        let rest = text.skip(1);
        law_spelled_text_is_read_back(rest);
        vstd::utf8::char_is_scalar(c);
        let v = c as u32;
        assert(v as char == c) by {
            vstd::utf8::char_u32_cast(c, v);
        }
        if v >= 0x10000 {
            assert(units[0] == 0xD800 + (v - 0x10000) / 0x400);
            assert(units[1] == 0xDC00 + (v - 0x10000) % 0x400);
            assert(starts_with_pair(units));
            assert(units.skip(2) =~= spelled(rest));
            assert(0x10000 + (units[0] - 0xD800) * 0x400 + (units[1] - 0xDC00) == v);
            assert(pair_char(units[0], units[1]) == c);
        } else {
            assert(units.skip(1) =~= spelled(rest));
            assert(units[0] == v);
            assert(units[0] as char == c);
        }
        assert(seq![c] + rest =~= text);
    } else {
        assert(text =~= Seq::<char>::empty());
    }
    law_well_formed_name_is_its_text(units);
}

/// Where no unit announces a pair, recoding unit by unit gives the name.
pub proof fn law_recoded_name_is_the_name(units: Seq<u16>)
    requires
        no_pairs(units),
    ensures
        recoded(units) == name_bytes(units),
    decreases units.len(),
{
    if units.len() > 0 {
        let rest = units.skip(1);
        assert(!high_surrogate(units[0]));
        assert forall|i: int| 0 <= i < rest.len() implies !high_surrogate(#[trigger] rest[i]) by {
            assert(rest[i] == units[i + 1]);
        }
        law_recoded_name_is_the_name(rest);
        lemma_recoded_front(units);
    }
}

/// Recoding can begin at the first unit as well as at the last.
proof fn lemma_recoded_front(units: Seq<u16>)
    requires
        units.len() > 0,
    ensures
        recoded(units) == unit_bytes(units[0]) + recoded(units.skip(1)),
    decreases units.len(),
{
    if units.len() == 1 {
        assert(units.drop_last() =~= Seq::<u16>::empty());
        assert(units.skip(1) =~= Seq::<u16>::empty());
        assert(recoded(units.drop_last()) =~= Seq::<u8>::empty());
        assert(recoded(units.skip(1)) =~= Seq::<u8>::empty());
        assert(recoded(units) =~= unit_bytes(units[0]) + recoded(units.skip(1)));
    } else {
        lemma_recoded_front(units.drop_last());
        assert(units.drop_last().skip(1) =~= units.skip(1).drop_last());
        assert(recoded(units) =~= unit_bytes(units[0]) + recoded(units.skip(1)));
    }
}

/// A unit that is no surrogate is recoded as the character of its number.
pub(crate) proof fn lemma_unit_is_scalar(c: u16)
    requires
        !(0xD800 <= c <= 0xDFFF),
    ensures
        unit_bytes(c) == encode_scalar(c as u32),
        (c as char) as u32 == c,
{
    let v = c as u32;
    if c < 0x80 {
        assert((v & 0x7f) as u8 == c as u8) by (bit_vector)
            requires
                v == c as u32,
                c < 0x80,
        ;
    } else if c < 0x800 {
        assert(0xC0u8 | ((v >> 6) & 0x1F) as u8 == (0xC0 + c / 64) as u8) by (bit_vector)
            requires
                v == c as u32,
                c < 0x800,
        ;
        assert(0x80u8 | (v & 0x3F) as u8 == (0x80 + c % 64) as u8) by (bit_vector)
            requires
                v == c as u32,
        ;
    } else {
        assert(0xE0u8 | ((v >> 12) & 0x0F) as u8 == (0xE0 + c / 4096) as u8) by (bit_vector)
            requires
                v == c as u32,
        ;
        assert(0x80u8 | ((v >> 6) & 0x3F) as u8 == (0x80 + (c / 64) % 64) as u8) by (bit_vector)
            requires
                v == c as u32,
        ;
        assert(0x80u8 | (v & 0x3F) as u8 == (0x80 + c % 64) as u8) by (bit_vector)
            requires
                v == c as u32,
        ;
    }
    assert(unit_bytes(c) =~= encode_scalar(v));
}

/// The four bytes of a character beyond the units that stand for themselves.
pub open spec fn pair_bytes(v: u32) -> Seq<u8> {
    seq![
        (0xF0 + v / 262144) as u8,
        (0x80 + (v / 4096) % 64) as u8,
        (0x80 + (v / 64) % 64) as u8,
        (0x80 + v % 64) as u8,
    ]
}

/// A pair takes the four bytes of its character.
pub(crate) proof fn lemma_pair_is_scalar(high: u16, low: u16, v: u32)
    requires
        high_surrogate(high),
        low_surrogate(low),
        v == 0x10000 + (high - 0xD800) * 0x400 + (low - 0xDC00),
    ensures
        pair_char(high, low) as u32 == v,
        0x10000 <= v <= 0x10FFFF,
        pair_bytes(v) == encode_scalar(v),
{
    assert(0xF0u8 | ((v >> 18) & 0x07) as u8 == (0xF0 + v / 262144) as u8) by (bit_vector)
        requires
            v <= 0x10FFFF,
    ;
    assert(0x80u8 | ((v >> 12) & 0x3F) as u8 == (0x80 + (v / 4096) % 64) as u8) by (bit_vector);
    assert(0x80u8 | ((v >> 6) & 0x3F) as u8 == (0x80 + (v / 64) % 64) as u8) by (bit_vector);
    assert(0x80u8 | (v & 0x3F) as u8 == (0x80 + v % 64) as u8) by (bit_vector);
    assert(pair_bytes(v) =~= encode_scalar(v));
}

} // verus!
