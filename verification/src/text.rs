//! Text helpers: lower case, trimming, and bytes read as text.

use vstd::prelude::*;
use vstd::string::StrSliceExecFns;
use vstd::string::StringExecFns;
use vstd::string::StringSliceAdditionalSpecFns;
use vstd::utf8::{
    decode_first_scalar, decode_utf8, encode_scalar, encode_utf8, is_ascii_chars, length_of_first_scalar,
    pop_first_scalar, valid_first_scalar, valid_utf8,
};

verus! {

/// The lower case form of a text that is not all ASCII, as the Unicode tables of the standard
/// library give it.
pub uninterp spec fn unicode_lowercase(s: Seq<char>) -> Seq<char>;

/// An ASCII capital letter made small; any other character unchanged.
pub open spec fn ascii_lower_char(c: char) -> char {
    if 'A' <= c && c <= 'Z' {
        ((c as u32 + 32) as u32) as char
    } else {
        c
    }
}

/// An ASCII capital letter made small; any other byte unchanged.
pub open spec fn ascii_lower_byte(b: u8) -> u8 {
    if 0x41 <= b <= 0x5a {
        (b + 32) as u8
    } else {
        b
    }
}

/// The lower case form of a text.
pub open spec fn lower_text(s: Seq<char>) -> Seq<char> {
    if is_ascii_chars(s) {
        s.map_values(|c: char| ascii_lower_char(c))
    } else {
        unicode_lowercase(s)
    }
}

/// The bytes of the lower case form of a text.
pub open spec fn lower_utf8(s: Seq<char>) -> Seq<u8> {
    encode_utf8(lower_text(s))
}

/// `str::to_lowercase`: on ASCII text it makes the letters `A` to `Z` small and changes nothing
/// else; on other text its result depends on the text alone and has a name here.
#[verifier::external_body]
pub(crate) fn to_lowercase(s: &str) -> (lower: String)
    ensures
        lower@ == (if is_ascii_chars(s@) { lower_text(s@) } else { unicode_lowercase(s@) }),
{
    s.to_lowercase()
}

/// `std::str::from_utf8`: the bytes as text where they are UTF-8, nothing where they are not.
#[verifier::external_body]
pub(crate) fn utf8_text(bytes: &[u8]) -> (text: Option<&str>)
    ensures
        match text {
            Some(s) => valid_utf8(bytes@) && s.spec_bytes() == bytes@,
            None => !valid_utf8(bytes@),
        },
{
    std::str::from_utf8(bytes).ok()
}

/// On ASCII text, making the bytes small one by one gives the bytes of the lower case text.
pub proof fn lemma_ascii_lower_utf8(s: Seq<char>)
    requires
        is_ascii_chars(s),
    ensures
        lower_utf8(s) == encode_utf8(s).map_values(|b: u8| ascii_lower_byte(b)),
{
    let lower = lower_text(s);
    assert forall|i: int| 0 <= i < lower.len() implies '\0' <= #[trigger] lower[i] <= '\u{7f}' by {
        assert('\0' <= s[i] <= '\u{7f}');
    }
    vstd::utf8::is_ascii_chars_encode_utf8(s);
    vstd::utf8::is_ascii_chars_encode_utf8(lower);
    assert forall|i: int| 0 <= i < s.len() implies #[trigger] encode_utf8(lower)[i]
        == ascii_lower_byte(encode_utf8(s)[i]) by {
        assert('\0' <= s[i] <= '\u{7f}');
        assert(lower[i] as u8 == encode_utf8(lower)[i]);
        assert(s[i] as u8 == encode_utf8(s)[i]);
    }
    assert(lower_utf8(s) =~= encode_utf8(s).map_values(|b: u8| ascii_lower_byte(b)));
}

/// An ASCII small letter made a capital; any other character unchanged.
pub open spec fn ascii_upper_char(c: char) -> char {
    if 'a' <= c && c <= 'z' {
        ((c as u32 - 32) as u32) as char
    } else {
        c
    }
}

/// An ASCII text in capitals.
pub open spec fn in_capitals(s: Seq<char>) -> Seq<char> {
    s.map_values(|c: char| ascii_upper_char(c))
}

/// An ASCII text in small letters.
pub open spec fn in_small_letters(s: Seq<char>) -> Seq<char> {
    s.map_values(|c: char| ascii_lower_char(c))
}

/// Writing an ASCII text in capitals or in small letters does not change its lower case form.
pub proof fn law_ascii_case_is_ignored(s: Seq<char>)
    requires
        is_ascii_chars(s),
    ensures
        lower_text(in_capitals(s)) == lower_text(s),
        lower_text(in_small_letters(s)) == lower_text(s),
        lower_utf8(in_capitals(s)) == lower_utf8(s),
        lower_utf8(in_small_letters(s)) == lower_utf8(s),
{
    let upper = in_capitals(s);
    let lower = in_small_letters(s);
    assert forall|i: int| 0 <= i < upper.len() implies '\0' <= #[trigger] upper[i] <= '\u{7f}' by {
        assert('\0' <= s[i] <= '\u{7f}');
    }
    assert forall|i: int| 0 <= i < lower.len() implies '\0' <= #[trigger] lower[i] <= '\u{7f}' by {
        assert('\0' <= s[i] <= '\u{7f}');
    }
    assert(lower_text(upper) =~= lower_text(s));
    assert(lower_text(lower) =~= lower_text(s));
}

/// In the lower case form of an ASCII text each capital letter stands 32 further on among the
/// characters, and every other character is as it was.
pub proof fn law_ascii_letters_are_made_small(s: Seq<char>, i: int)
    requires
        is_ascii_chars(s),
        0 <= i < s.len(),
    ensures
        lower_text(s).len() == s.len(),
        'A' <= s[i] <= 'Z' ==> lower_text(s)[i] as u32 == s[i] as u32 + 32,
        !('A' <= s[i] <= 'Z') ==> lower_text(s)[i] == s[i],
{
    assert('\0' <= s[i] <= '\u{7f}');
}

/// A name that is text is made small as that text.
pub proof fn law_text_is_made_small_as_text(text: Seq<char>)
    ensures
        lower_name(encode_utf8(text)) == lower_utf8(text),
{
    vstd::utf8::encode_utf8_valid_utf8(text);
    vstd::utf8::encode_utf8_decode_utf8(text);
}

/// Only the empty text has no bytes.
pub proof fn lemma_no_bytes(s: Seq<char>)
    ensures
        encode_utf8(s).len() == 0 <==> s.len() == 0,
{
}

/// The bytes of the lower case form of `name`. ASCII names are lowered byte by byte.
pub fn lower_bytes(name: &str) -> (lower: Vec<u8>)
    ensures
        lower@ == lower_utf8(name@),
{
    let bytes = name.as_bytes();
    let mut lower: Vec<u8> = Vec::with_capacity(bytes.len());
    if name.is_ascii() {
        proof {
            lemma_ascii_lower_utf8(name@);
        }
        let mut i: usize = 0;
        while i < bytes.len()
            invariant
                i <= bytes@.len(),
                lower@ == bytes@.take(i as int).map_values(|b: u8| ascii_lower_byte(b)),
            decreases bytes@.len() - i,
        {
            let b = bytes[i];
            lower.push(if 0x41 <= b && b <= 0x5a { b + 32 } else { b });
            assert(bytes@.take(i + 1) =~= bytes@.take(i as int).push(b));
            assert(lower@ =~= bytes@.take(i + 1).map_values(|b: u8| ascii_lower_byte(b)));
            i += 1;
        }
        assert(bytes@.take(i as int) =~= bytes@);
    } else {
        let text = to_lowercase(name);
        append_bytes(&mut lower, text.as_str().as_bytes());
        assert(lower@ =~= lower_utf8(name@));
    }
    lower
}

/// The text that some bytes are shown as: the text that they spell in UTF-8, with the replacement
/// character for each byte that spells nothing.
pub open spec fn shown_text(bytes: Seq<u8>) -> Seq<char>
    decreases bytes.len(),
{
    if bytes.len() == 0 {
        Seq::empty()
    } else if valid_first_scalar(bytes) {
        seq![decode_first_scalar(bytes) as char] + shown_text(pop_first_scalar(bytes))
    } else {
        seq!['\u{fffd}'] + shown_text(bytes.skip(1))
    }
}

/// Text is shown as it is.
pub proof fn law_text_is_shown_as_it_is(bytes: Seq<u8>)
    requires
        valid_utf8(bytes),
    ensures
        shown_text(bytes) == decode_utf8(bytes),
        encode_utf8(shown_text(bytes)) == bytes,
    decreases bytes.len(),
{
    if bytes.len() > 0 {
        law_text_is_shown_as_it_is(pop_first_scalar(bytes));
    }
    vstd::utf8::decode_utf8_encode_utf8(bytes);
}

/// The lower case form of a name: that of its text; where it is not all text, character by character,
/// with the bytes that spell nothing kept as they are.
pub open spec fn lower_name(bytes: Seq<u8>) -> Seq<u8> {
    if valid_utf8(bytes) {
        lower_utf8(decode_utf8(bytes))
    } else {
        lower_pieces(bytes)
    }
}

/// The lower case form of some bytes, character by character.
pub open spec fn lower_pieces(bytes: Seq<u8>) -> Seq<u8>
    decreases bytes.len(),
{
    if bytes.len() == 0 {
        Seq::empty()
    } else if valid_first_scalar(bytes) {
        lower_utf8(seq![decode_first_scalar(bytes) as char]) + lower_pieces(
            pop_first_scalar(bytes),
        )
    } else {
        seq![bytes[0]] + lower_pieces(bytes.skip(1))
    }
}

/// A first character is told by its own bytes alone.
proof fn lemma_first_char(bytes: Seq<u8>, k: int)
    requires
        0 < k <= bytes.len(),
    ensures
        valid_utf8(bytes.take(k)) ==> valid_first_scalar(bytes) && length_of_first_scalar(bytes)
            <= k,
        valid_first_scalar(bytes) && length_of_first_scalar(bytes) == k ==> {
            &&& valid_utf8(bytes.take(k))
            &&& decode_utf8(bytes.take(k)) == seq![decode_first_scalar(bytes) as char]
        },
{
    let part = bytes.take(k);
    if valid_utf8(part) {
        assert(valid_first_scalar(part));
    }
    if valid_first_scalar(bytes) && length_of_first_scalar(bytes) == k {
        assert(valid_first_scalar(part));
        assert(pop_first_scalar(part) =~= Seq::<u8>::empty());
        assert(valid_utf8(pop_first_scalar(part)));
        assert(decode_utf8(pop_first_scalar(part)) =~= Seq::<char>::empty());
        assert(decode_utf8(part) =~= seq![decode_first_scalar(bytes) as char]);
    }
}

/// Bytes are read from the first to the last: the bytes of a character are shown as the character
/// and made small as it, whatever follows them.
pub proof fn law_characters_are_read_one_by_one(c: char, rest: Seq<u8>)
    ensures
        shown_text(encode_utf8(seq![c]) + rest) == seq![c] + shown_text(rest),
        lower_pieces(encode_utf8(seq![c]) + rest) == lower_utf8(seq![c]) + lower_pieces(rest),
{
    let own = encode_utf8(seq![c]);
    let bytes = own + rest;
    let k = own.len() as int;
    vstd::utf8::encode_utf8_first_scalar(seq![c]);
    vstd::utf8::encode_utf8_valid_utf8(seq![c]);
    vstd::utf8::encode_utf8_decode_utf8(seq![c]);
    assert(seq![c].drop_first() =~= Seq::<char>::empty());
    assert(encode_utf8(Seq::<char>::empty()).len() == 0);
    assert(own =~= encode_scalar(seq![c][0] as u32));
    assert(bytes.take(k) =~= own);
    assert(length_of_first_scalar(own) == k);
    lemma_first_char(bytes, k);
    assert(length_of_first_scalar(bytes) == k);
    assert(pop_first_scalar(bytes) =~= rest);
    assert(seq![decode_first_scalar(bytes) as char] == seq![c]);
}

/// A byte that begins no character is shown as the replacement character, and is kept where the
/// name is made small.
pub proof fn law_other_bytes_keep_their_place(b: u8, rest: Seq<u8>)
    requires
        b >= 0x80,
        b < 0xc0 || b >= 0xf8 || rest.len() == 0 || rest[0] < 0x80 || rest[0] >= 0xc0,
    ensures
        shown_text(seq![b] + rest) == seq!['\u{fffd}'] + shown_text(rest),
        lower_pieces(seq![b] + rest) == seq![b] + lower_pieces(rest),
{
    let bytes = seq![b] + rest;
    assert(rest.len() > 0 ==> bytes[1] == rest[0]);
    assert(!valid_first_scalar(bytes));
    assert(bytes.skip(1) =~= rest);
}

/// The character at the start of some bytes, as text, with the number of bytes that it takes.
fn first_char(bytes: &[u8]) -> (first: Option<(&str, usize)>)
    ensures
        match first {
            Some((text, n)) => {
                &&& valid_first_scalar(bytes@)
                &&& n == length_of_first_scalar(bytes@)
                &&& 0 < n <= bytes@.len()
                &&& text@ == seq![decode_first_scalar(bytes@) as char]
            },
            None => !valid_first_scalar(bytes@),
        },
{
    let mut n: usize = 1;
    while n <= 4 && n <= bytes.len()
        invariant
            1 <= n <= 5,
            forall|k: int| 1 <= k < n && k <= bytes@.len() ==> !valid_utf8(#[trigger] bytes@.take(k)),
        decreases 5 - n,
    {
        let part = vstd::slice::slice_subrange(bytes, 0, n);
        assert(part@ =~= bytes@.take(n as int));
        if let Some(text) = utf8_text(part) {
            proof {
                lemma_first_char(bytes@, n as int);
                let len = length_of_first_scalar(bytes@);
                lemma_first_char(bytes@, len);
                if len < n {
                    assert(!valid_utf8(bytes@.take(len)));
                }
                vstd::utf8::encode_utf8_decode_utf8(text@);
            }
            return Some((text, n));
        }
        n += 1;
    }
    proof {
        if valid_first_scalar(bytes@) {
            let len = length_of_first_scalar(bytes@);
            lemma_first_char(bytes@, len);
            assert(!valid_utf8(bytes@.take(len)));
        }
    }
    None
}

/// The text that some bytes are shown as.
pub fn shown_string(bytes: &[u8]) -> (text: String)
    ensures
        text@ == shown_text(bytes@),
{
    if let Some(text) = utf8_text(bytes) {
        proof {
            law_text_is_shown_as_it_is(bytes@);
            vstd::utf8::encode_utf8_decode_utf8(text@);
        }
        return text.to_owned();
    }
    let mut out = String::new();
    let mut i: usize = 0;
    assert(bytes@.skip(0) =~= bytes@);
    assert(out@ + shown_text(bytes@) =~= shown_text(bytes@));
    while i < bytes.len()
        invariant
            i <= bytes@.len(),
            shown_text(bytes@) == out@ + shown_text(bytes@.skip(i as int)),
        decreases bytes@.len() - i,
    {
        let rest = vstd::slice::slice_subrange(bytes, i, bytes.len());
        let ghost before = out@;
        assert(rest@ =~= bytes@.skip(i as int));
        match first_char(rest) {
            Some((text, n)) => {
                out.append(text);
                proof {
                    assert(pop_first_scalar(rest@) =~= bytes@.skip(i + n));
                    assert(shown_text(bytes@) =~= out@ + shown_text(bytes@.skip(i + n)));
                }
                i += n;
            },
            None => {
                out.push('\u{fffd}');
                proof {
                    assert(rest@.skip(1) =~= bytes@.skip(i + 1));
                    assert(shown_text(bytes@) =~= out@ + shown_text(bytes@.skip(i + 1)));
                }
                i += 1;
            },
        }
    }
    assert(bytes@.skip(i as int) =~= Seq::<u8>::empty());
    assert(shown_text(bytes@) =~= out@);
    out
}

/// The lower case form of a name, which need not be text.
pub fn lower_name_bytes(name: &[u8]) -> (lower: Vec<u8>)
    ensures
        lower@ == lower_name(name@),
{
    if let Some(text) = utf8_text(name) {
        proof {
            vstd::utf8::encode_utf8_decode_utf8(text@);
        }
        return lower_bytes(text);
    }
    let mut lower: Vec<u8> = Vec::with_capacity(name.len());
    let mut i: usize = 0;
    assert(name@.skip(0) =~= name@);
    assert(lower@ + lower_pieces(name@) =~= lower_pieces(name@));
    while i < name.len()
        invariant
            i <= name@.len(),
            lower_pieces(name@) == lower@ + lower_pieces(name@.skip(i as int)),
        decreases name@.len() - i,
    {
        let rest = vstd::slice::slice_subrange(name, i, name.len());
        assert(rest@ =~= name@.skip(i as int));
        match first_char(rest) {
            Some((text, n)) => {
                let small = lower_bytes(text);
                append_bytes(&mut lower, small.as_slice());
                proof {
                    assert(pop_first_scalar(rest@) =~= name@.skip(i + n));
                    assert(lower_pieces(name@) =~= lower@ + lower_pieces(name@.skip(i + n)));
                }
                i += n;
            },
            None => {
                lower.push(name[i]);
                proof {
                    assert(rest@[0] == name@[i as int]);
                    assert(rest@.skip(1) =~= name@.skip(i + 1));
                    assert(lower_pieces(name@) =~= lower@ + lower_pieces(name@.skip(i + 1)));
                }
                i += 1;
            },
        }
    }
    assert(name@.skip(i as int) =~= Seq::<u8>::empty());
    assert(lower_pieces(name@) =~= lower@);
    lower
}

/// Appends all of `bytes` to `buf`.
pub(crate) fn append_bytes(buf: &mut Vec<u8>, bytes: &[u8])
    ensures
        final(buf)@ == old(buf)@ + bytes@,
{
    buf.extend_from_slice(bytes);
    assert(buf@ =~= old(buf)@ + bytes@);
}

/// The characters with the Unicode property `White_Space`.
pub open spec fn white_space(c: char) -> bool {
    ||| '\u{9}' <= c <= '\u{d}'
    ||| c == '\u{20}'
    ||| c == '\u{85}'
    ||| c == '\u{a0}'
    ||| c == '\u{1680}'
    ||| '\u{2000}' <= c <= '\u{200a}'
    ||| c == '\u{2028}'
    ||| c == '\u{2029}'
    ||| c == '\u{202f}'
    ||| c == '\u{205f}'
    ||| c == '\u{3000}'
}

fn is_white_space(c: char) -> (b: bool)
    ensures
        b == white_space(c),
{
    ('\u{9}' <= c && c <= '\u{d}') || c == '\u{20}' || c == '\u{85}' || c == '\u{a0}' || c
        == '\u{1680}' || ('\u{2000}' <= c && c <= '\u{200a}') || c == '\u{2028}' || c == '\u{2029}'
        || c == '\u{202f}' || c == '\u{205f}' || c == '\u{3000}'
}

/// The text without the white space at its start.
pub open spec fn without_leading_space(s: Seq<char>) -> Seq<char>
    decreases s.len(),
{
    if s.len() > 0 && white_space(s[0]) {
        without_leading_space(s.skip(1))
    } else {
        s
    }
}

/// The text without the white space at its end.
pub open spec fn without_trailing_space(s: Seq<char>) -> Seq<char>
    decreases s.len(),
{
    if s.len() > 0 && white_space(s.last()) {
        without_trailing_space(s.drop_last())
    } else {
        s
    }
}

/// The text without the white space at its ends.
pub open spec fn trimmed(s: Seq<char>) -> Seq<char> {
    without_trailing_space(without_leading_space(s))
}

/// The text without the dots at its start.
pub open spec fn without_leading_dots(s: Seq<char>) -> Seq<char>
    decreases s.len(),
{
    if s.len() > 0 && s[0] == '.' {
        without_leading_dots(s.skip(1))
    } else {
        s
    }
}

/// Every character is white space.
pub open spec fn all_white(s: Seq<char>) -> bool {
    forall|i: int| 0 <= i < s.len() ==> white_space(#[trigger] s[i])
}

/// Every character is a dot.
pub open spec fn all_dots(s: Seq<char>) -> bool {
    forall|i: int| 0 <= i < s.len() ==> #[trigger] s[i] == '.'
}

proof fn lemma_leading_space(before: Seq<char>, s: Seq<char>)
    requires
        all_white(before),
    ensures
        without_leading_space(before + s) == without_leading_space(s),
    decreases before.len(),
{
    if before.len() > 0 {
        let rest = before.skip(1);
        assert(white_space(before[0]));
        assert((before + s).skip(1) =~= rest + s);
        assert forall|i: int| 0 <= i < rest.len() implies white_space(#[trigger] rest[i]) by {
            assert(rest[i] == before[i + 1]);
        }
        lemma_leading_space(rest, s);
    } else {
        assert(before + s =~= s);
    }
}

proof fn lemma_trailing_space(s: Seq<char>, after: Seq<char>)
    requires
        all_white(after),
    ensures
        without_trailing_space(s + after) == without_trailing_space(s),
    decreases after.len(),
{
    if after.len() > 0 {
        let rest = after.drop_last();
        assert(white_space(after[after.len() - 1]));
        assert((s + after).drop_last() =~= s + rest);
        assert forall|i: int| 0 <= i < rest.len() implies white_space(#[trigger] rest[i]) by {
            assert(rest[i] == after[i]);
        }
        lemma_trailing_space(s, rest);
    } else {
        assert(s + after =~= s);
    }
}

proof fn lemma_leading_dots(dots: Seq<char>, s: Seq<char>)
    requires
        all_dots(dots),
    ensures
        without_leading_dots(dots + s) == without_leading_dots(s),
    decreases dots.len(),
{
    if dots.len() > 0 {
        let rest = dots.skip(1);
        assert(dots[0] == '.');
        assert((dots + s).skip(1) =~= rest + s);
        assert forall|i: int| 0 <= i < rest.len() implies #[trigger] rest[i] == '.' by {
            assert(rest[i] == dots[i + 1]);
        }
        lemma_leading_dots(rest, s);
    } else {
        assert(dots + s =~= s);
    }
}

/// White space around a text and dots before it are taken off, and nothing more, where the text
/// itself has neither white space at its ends nor a dot at its start.
pub proof fn lemma_padding_is_taken_off(
    before: Seq<char>,
    dots: Seq<char>,
    core: Seq<char>,
    after: Seq<char>,
)
    requires
        all_white(before),
        all_dots(dots),
        all_white(after),
        core.len() > 0 ==> (dots.len() > 0 || !white_space(core[0])) && !white_space(core.last())
            && core[0] != '.',
    ensures
        without_leading_dots(trimmed(before + dots + core + after)) == core,
        trimmed(before + dots + core + after) == dots + core,
{
    let inner = dots + core;
    let s = before + dots + core + after;
    assert(s =~= before + (inner + after));
    lemma_leading_space(before, inner + after);
    if inner.len() > 0 {
        assert(!white_space(inner[0])) by {
            if dots.len() > 0 {
                assert(dots[0] == '.');
            }
        }
        assert(!white_space(inner.last())) by {
            if core.len() == 0 {
                assert(dots[dots.len() - 1] == '.');
                assert(inner.last() == '.');
            }
        }
        assert((inner + after)[0] == inner[0]);
        assert(without_leading_space(inner + after) == inner + after);
        lemma_trailing_space(inner, after);
        assert(trimmed(s) == inner);
    } else {
        assert(inner + after =~= after + Seq::<char>::empty());
        lemma_leading_space(after, Seq::<char>::empty());
        assert(trimmed(s) =~= Seq::<char>::empty());
        assert(dots =~= Seq::<char>::empty());
        assert(trimmed(s) =~= dots + core);
    }
    lemma_leading_dots(dots, core);
    assert(without_leading_dots(core) == core);
}

proof fn lemma_leading_space_splits(s: Seq<char>) -> (before: Seq<char>)
    ensures
        all_white(before),
        s == before + without_leading_space(s),
        without_leading_space(s).len() > 0 ==> !white_space(without_leading_space(s)[0]),
    decreases s.len(),
{
    if s.len() > 0 && white_space(s[0]) {
        let rest = lemma_leading_space_splits(s.skip(1));
        let before = seq![s[0]] + rest;
        assert(s =~= seq![s[0]] + s.skip(1));
        assert(s =~= before + without_leading_space(s));
        assert forall|i: int| 0 <= i < before.len() implies white_space(#[trigger] before[i]) by {
            if i > 0 {
                assert(before[i] == rest[i - 1]);
            }
        }
        before
    } else {
        assert(s =~= Seq::<char>::empty() + s);
        Seq::empty()
    }
}

proof fn lemma_trailing_space_splits(s: Seq<char>) -> (after: Seq<char>)
    ensures
        all_white(after),
        s == without_trailing_space(s) + after,
        without_trailing_space(s).len() > 0 ==> !white_space(without_trailing_space(s).last()),
    decreases s.len(),
{
    if s.len() > 0 && white_space(s.last()) {
        let rest = lemma_trailing_space_splits(s.drop_last());
        let after = rest.push(s.last());
        assert(s =~= s.drop_last().push(s.last()));
        assert(s =~= without_trailing_space(s) + after);
        assert forall|i: int| 0 <= i < after.len() implies white_space(#[trigger] after[i]) by {
            if i < rest.len() {
                assert(after[i] == rest[i]);
            }
        }
        after
    } else {
        assert(s =~= s + Seq::<char>::empty());
        Seq::empty()
    }
}

/// Trimming takes white space off the ends of a text and nothing else: what stands before the
/// trimmed text and behind it is white space, and the trimmed text has none at its ends. Only a
/// text that is white space throughout is trimmed to nothing.
pub proof fn law_trimming_takes_off_the_white_ends(s: Seq<char>) -> (ends: (Seq<char>, Seq<char>))
    ensures
        s == ends.0 + trimmed(s) + ends.1,
        all_white(ends.0),
        all_white(ends.1),
        trimmed(s).len() > 0 ==> !white_space(trimmed(s)[0]) && !white_space(trimmed(s).last()),
        trimmed(s).len() == 0 <==> all_white(s),
{
    let inner = without_leading_space(s);
    let before = lemma_leading_space_splits(s);
    let after = lemma_trailing_space_splits(inner);
    let core = trimmed(s);
    assert(s =~= before + core + after);
    if core.len() > 0 {
        assert(core[0] == inner[0]);
        assert(s[before.len() as int] == core[0]);
    } else {
        assert forall|i: int| 0 <= i < s.len() implies white_space(#[trigger] s[i]) by {
            if i < before.len() {
                assert(s[i] == before[i]);
            } else {
                assert(s[i] == after[i - before.len()]);
            }
        }
    }
    (before, after)
}

/// Taking the dots off the start of a text takes off dots and nothing else, and leaves none there.
pub proof fn law_leading_dots_are_taken_off(s: Seq<char>) -> (dots: Seq<char>)
    ensures
        all_dots(dots),
        s == dots + without_leading_dots(s),
        without_leading_dots(s).len() > 0 ==> without_leading_dots(s)[0] != '.',
    decreases s.len(),
{
    if s.len() > 0 && s[0] == '.' {
        let rest = law_leading_dots_are_taken_off(s.skip(1));
        let dots = seq!['.'] + rest;
        assert(s =~= seq!['.'] + s.skip(1));
        assert(s =~= dots + without_leading_dots(s));
        assert forall|i: int| 0 <= i < dots.len() implies #[trigger] dots[i] == '.' by {
            if i > 0 {
                assert(dots[i] == rest[i - 1]);
            }
        }
        dots
    } else {
        assert(s =~= Seq::<char>::empty() + s);
        Seq::empty()
    }
}

/// The characters of a text.
pub(crate) fn chars_of(s: &str) -> (chars: Vec<char>)
    ensures
        chars@ == s@,
{
    let mut chars: Vec<char> = Vec::new();
    for c in it: s.chars()
        invariant
            chars@ == s@.take(it.index() as int),
            it.seq() == s@,
    {
        assert(s@.take(it.index() + 1) =~= s@.take(it.index() as int).push(c));
        chars.push(c);
    }
    assert(s@.take(s@.len() as int) =~= s@);
    chars
}

/// Takes the white space off both ends.
pub fn trim(s: &str) -> (t: &str)
    ensures
        t@ == trimmed(s@),
{
    let chars = chars_of(s);
    let mut start: usize = 0;
    assert(s@.skip(0) =~= s@);
    while start < chars.len() && is_white_space(chars[start])
        invariant
            start <= chars@.len(),
            chars@ == s@,
            without_leading_space(s@.skip(start as int)) == without_leading_space(s@),
        decreases chars@.len() - start,
    {
        assert(s@.skip(start as int).skip(1) =~= s@.skip(start + 1));
        start += 1;
    }
    let mut end: usize = chars.len();
    assert(s@.subrange(start as int, end as int) =~= s@.skip(start as int));
    while end > start && is_white_space(chars[end - 1])
        invariant
            start <= end <= chars@.len(),
            chars@ == s@,
            without_trailing_space(s@.subrange(start as int, end as int)) == trimmed(s@),
        decreases end,
    {
        assert(s@.subrange(start as int, end as int).drop_last() =~= s@.subrange(
            start as int,
            end - 1,
        ));
        end -= 1;
    }
    s.substring_char(start, end)
}

/// Takes the dots off the start.
pub fn trim_start_dots(s: &str) -> (t: &str)
    ensures
        t@ == without_leading_dots(s@),
{
    let chars = chars_of(s);
    let mut start: usize = 0;
    assert(s@.skip(0) =~= s@);
    while start < chars.len() && chars[start] == '.'
        invariant
            start <= chars@.len(),
            chars@ == s@,
            without_leading_dots(s@.skip(start as int)) == without_leading_dots(s@),
        decreases chars@.len() - start,
    {
        assert(s@.skip(start as int).skip(1) =~= s@.skip(start + 1));
        start += 1;
    }
    assert(s@.subrange(start as int, chars@.len() as int) =~= s@.skip(start as int));
    s.substring_char(start, chars.len())
}

/// `String::push`: appends one character to the text.
pub assume_specification[ String::push ](s: &mut String, c: char)
    ensures
        final(s)@ == old(s)@.push(c),
;

/// The decimal digit of a number below ten.
pub open spec fn digit(n: nat) -> char {
    ('0' as u32 + n) as u32 as char
}

/// A number in decimal, without leading zeros.
pub open spec fn decimal(n: nat) -> Seq<char>
    decreases n,
{
    if n < 10 {
        seq![digit(n)]
    } else {
        decimal(n / 10).push(digit(n % 10))
    }
}

/// The number that some digits tell, the last of them the least.
pub open spec fn number_told(digits: Seq<char>) -> int
    decreases digits.len(),
{
    if digits.len() == 0 {
        0
    } else {
        10 * number_told(digits.drop_last()) + (digits.last() as u32 - '0' as u32)
    }
}

/// A number in decimal consists of digits that tell the number, and begins with a zero only where
/// it is zero.
pub proof fn law_decimal_tells_the_number(n: nat)
    ensures
        number_told(decimal(n)) == n,
        decimal(n).len() > 0,
        forall|i: int| 0 <= i < decimal(n).len() ==> '0' <= #[trigger] decimal(n)[i] <= '9',
        n > 0 ==> decimal(n)[0] != '0',
        n == 0 ==> decimal(n).len() == 1,
    decreases n,
{
    if n < 10 {
        assert(seq![digit(n)].drop_last() =~= Seq::<char>::empty());
        assert(number_told(Seq::<char>::empty()) == 0);
        lemma_digit(n);
    } else {
        let rest = decimal(n / 10);
        law_decimal_tells_the_number(n / 10);
        lemma_digit(n % 10);
        assert(decimal(n).drop_last() =~= rest);
        assert forall|i: int| 0 <= i < decimal(n).len() implies '0' <= #[trigger] decimal(n)[i]
            <= '9' by {
            if i < rest.len() {
                assert(decimal(n)[i] == rest[i]);
            }
        }
        assert(decimal(n)[0] == rest[0]);
    }
}

proof fn lemma_digit(n: nat)
    requires
        n < 10,
    ensures
        digit(n) as u32 == '0' as u32 + n,
        '0' <= digit(n) <= '9',
        n > 0 ==> digit(n) != '0',
{
}

/// Writes a number in decimal.
pub fn to_decimal(n: u64) -> (text: String)
    ensures
        text@ == decimal(n as nat),
    decreases n,
{
    let last = (0x30u8 + (n % 10) as u8) as char;
    if n < 10 {
        let mut text = String::new();
        text.push(last);
        assert(text@ =~= decimal(n as nat));
        text
    } else {
        let mut text = to_decimal(n / 10);
        text.push(last);
        text
    }
}

} // verus!
