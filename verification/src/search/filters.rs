//! What the filters of a search let through.

use crate::index::entry::{marks_dir, marks_hidden};
use crate::index::store::{extension_of, find_last_dot, Record};
use crate::search::substring::first_occurrence;
use crate::text::{
    all_dots, all_white, ascii_upper_char, in_capitals, law_ascii_case_is_ignored, lemma_no_bytes,
    lemma_padding_is_taken_off, lower_text, to_lowercase, trim, trim_start_dots, trimmed,
    white_space, without_leading_dots,
};
use crate::types::filter::FilterOptions;
use vstd::prelude::*;
use vstd::utf8::{encode_utf8, is_ascii_chars};

verus! {

/// A file type as the user wrote it, without white space and dots, in lower case.
pub open spec fn type_text(s: Seq<char>) -> Seq<char> {
    lower_text(without_leading_dots(trimmed(s)))
}

/// The bytes of those texts that are not empty.
pub open spec fn non_empty_utf8(texts: Seq<Seq<char>>) -> Seq<Seq<u8>>
    decreases texts.len(),
{
    if texts.len() == 0 {
        Seq::empty()
    } else if texts.last().len() == 0 {
        non_empty_utf8(texts.drop_last())
    } else {
        non_empty_utf8(texts.drop_last()).push(encode_utf8(texts.last()))
    }
}

/// The texts of some strings.
pub open spec fn texts_of(strings: Seq<String>) -> Seq<Seq<char>> {
    Seq::new(strings.len(), |i: int| strings[i]@)
}

/// The contents of some byte strings.
pub open spec fn bytes_of(strings: Seq<Vec<u8>>) -> Seq<Seq<u8>> {
    Seq::new(strings.len(), |i: int| strings[i]@)
}

/// The extensions that a search is narrowed to.
pub open spec fn wanted_types(file_types: Seq<String>) -> Seq<Seq<u8>> {
    non_empty_utf8(Seq::new(file_types.len(), |i: int| type_text(file_types[i]@)))
}

/// The bytes of those texts that are not empty, in order.
pub fn non_empty_bytes(texts: &Vec<String>) -> (out: Vec<Vec<u8>>)
    ensures
        bytes_of(out@) == non_empty_utf8(texts_of(texts@)),
{
    let mut out: Vec<Vec<u8>> = Vec::new();
    let ghost all = texts_of(texts@);
    let mut i: usize = 0;
    while i < texts.len()
        invariant
            i <= texts@.len(),
            all == texts_of(texts@),
            bytes_of(out@) == non_empty_utf8(all.take(i as int)),
        decreases texts@.len() - i,
    {
        assert(all.take(i + 1).drop_last() =~= all.take(i as int));
        let bytes = texts[i].as_str().as_bytes();
        proof {
            lemma_no_bytes(texts@[i as int]@);
        }
        if bytes.len() > 0 {
            out.push(vstd::slice::slice_to_vec(bytes));
            assert(bytes_of(out@) =~= non_empty_utf8(all.take(i + 1)));
        }
        i += 1;
    }
    assert(all.take(i as int) =~= all);
    out
}

/// The extensions that a search is narrowed to, from what the user wrote.
pub fn type_filters(file_types: &Vec<String>) -> (out: Vec<Vec<u8>>)
    ensures
        bytes_of(out@) == wanted_types(file_types@),
{
    let mut texts: Vec<String> = Vec::with_capacity(file_types.len());
    let mut i: usize = 0;
    while i < file_types.len()
        invariant
            i <= file_types@.len(),
            texts@.len() == i,
            forall|j: int| 0 <= j < i ==> (#[trigger] texts@[j])@ == type_text(file_types@[j]@),
        decreases file_types@.len() - i,
    {
        texts.push(to_lowercase(trim_start_dots(trim(file_types[i].as_str()))));
        i += 1;
    }
    assert(texts_of(texts@) =~= Seq::new(
        file_types@.len(),
        |i: int| type_text(file_types@[i]@),
    ));
    non_empty_bytes(&texts)
}

/// Where the query stands in the name of an entry that the filters let through. Hidden entries are
/// let through on demand only; size limits and wanted extensions do not hold back directories.
pub open spec fn match_of(
    r: Record,
    filters: FilterOptions,
    types: Seq<Seq<u8>>,
    query: Seq<u8>,
) -> Option<int> {
    if !filters.include_hidden && marks_hidden(r.flags) {
        None
    } else if !marks_dir(r.flags) && !size_allowed(r.size, filters) {
        None
    } else if !marks_dir(r.flags) && types.len() > 0 && !has_wanted_type(r.lower, types) {
        None
    } else {
        first_occurrence(r.lower, query)
    }
}

/// The size keeps to the limits that are given.
pub open spec fn size_allowed(size: u64, filters: FilterOptions) -> bool {
    &&& filters.min_size matches Some(least) ==> least <= size
    &&& filters.max_size matches Some(most) ==> size <= most
}

/// The name has one of the wanted extensions.
pub open spec fn has_wanted_type(lower: Seq<u8>, types: Seq<Seq<u8>>) -> bool {
    match extension_of(lower) {
        Some(ext) => types.contains(ext),
        None => false,
    }
}

/// Whether the name has one of the wanted extensions.
pub(crate) fn has_type(name_lower: &[u8], type_filters: &[Vec<u8>]) -> (b: bool)
    ensures
        b == has_wanted_type(name_lower@, bytes_of(type_filters@)),
{
    let ghost types = bytes_of(type_filters@);
    match find_last_dot(name_lower) {
        Some(dot) => {
            assert(dot < name_lower.len());
            let ext = vstd::slice::slice_subrange(name_lower, dot + 1, name_lower.len());
            assert(ext@ =~= name_lower@.skip(dot + 1));
            let mut k: usize = 0;
            while k < type_filters.len()
                invariant
                    k <= type_filters@.len(),
                    types == bytes_of(type_filters@),
                    has_wanted_type(name_lower@, types) == types.contains(ext@),
                    forall|j: int| 0 <= j < k ==> #[trigger] types[j] != ext@,
                decreases type_filters@.len() - k,
            {
                if same_bytes(type_filters[k].as_slice(), ext) {
                    assert(types[k as int] == ext@);
                    return true;
                }
                assert(types[k as int] != ext@);
                k += 1;
            }
            false
        },
        None => false,
    }
}

/// Whether two byte strings are equal.
fn same_bytes(a: &[u8], b: &[u8]) -> (same: bool)
    ensures
        same == (a@ == b@),
{
    if a.len() != b.len() {
        return false;
    }
    let mut i: usize = 0;
    while i < a.len()
        invariant
            i <= a@.len(),
            a@.len() == b@.len(),
            forall|j: int| 0 <= j < i ==> #[trigger] a@[j] == b@[j],
        decreases a@.len() - i,
    {
        if a[i] != b[i] {
            return false;
        }
        i += 1;
    }
    assert(a@ =~= b@);
    true
}

/// Wanted extensions are never empty.
pub(crate) proof fn lemma_types_not_empty(texts: Seq<Seq<char>>)
    ensures
        forall|i: int|
            0 <= i < non_empty_utf8(texts).len() ==> (#[trigger] non_empty_utf8(texts)[i]).len()
                > 0,
    decreases texts.len(),
{
    if texts.len() > 0 {
        let rest = non_empty_utf8(texts.drop_last());
        lemma_types_not_empty(texts.drop_last());
        lemma_no_bytes(texts.last());
        assert forall|i: int| 0 <= i < non_empty_utf8(texts).len() implies (
        #[trigger] non_empty_utf8(texts)[i]).len() > 0 by {
            if i < rest.len() {
                assert(rest[i].len() > 0);
            }
        }
    }
}

/// The text with white space around it and dots before it, if any.
pub open spec fn is_padded(s: Seq<char>, core: Seq<char>) -> bool {
    exists|before: Seq<char>, dots: Seq<char>, after: Seq<char>|
        {
            &&& #[trigger] all_white(before)
            &&& #[trigger] all_dots(dots)
            &&& #[trigger] all_white(after)
            &&& s == before + dots + core + after
        }
}

/// An ASCII file type without white space at its ends and without a dot at its start.
pub open spec fn is_bare_type(e: Seq<char>) -> bool {
    &&& is_ascii_chars(e)
    &&& e.len() > 0
    &&& !white_space(e[0])
    &&& !white_space(e.last())
    &&& e[0] != '.'
}

/// A padded file type, in capitals or not, comes to the same as the bare one.
pub proof fn lemma_padded_type(s: Seq<char>, e: Seq<char>)
    requires
        is_bare_type(e),
        is_padded(s, e) || is_padded(s, in_capitals(e)),
    ensures
        type_text(s) == type_text(e),
        type_text(e).len() > 0,
{
    let upper = in_capitals(e);
    law_ascii_case_is_ignored(e);
    let none = Seq::<char>::empty();
    assert(all_white(none) && all_dots(none));
    lemma_padding_is_taken_off(none, none, e, none);
    assert(none + none + e + none =~= e);
    assert(upper[0] == ascii_upper_char(e[0]));
    assert(upper.last() == ascii_upper_char(e.last()));
    let core = if is_padded(s, e) {
        e
    } else {
        upper
    };
    let (before, dots, after) = choose|before: Seq<char>, dots: Seq<char>, after: Seq<char>|
        {
            &&& #[trigger] all_white(before)
            &&& #[trigger] all_dots(dots)
            &&& #[trigger] all_white(after)
            &&& s == before + dots + core + after
        };
    lemma_padding_is_taken_off(before, dots, core, after);
}

/// A blank file type comes to nothing.
pub proof fn lemma_padded_blank(s: Seq<char>)
    requires
        is_padded(s, Seq::<char>::empty()),
    ensures
        type_text(s).len() == 0,
{
    let none = Seq::<char>::empty();
    let (before, dots, after) = choose|before: Seq<char>, dots: Seq<char>, after: Seq<char>|
        {
            &&& #[trigger] all_white(before)
            &&& #[trigger] all_dots(dots)
            &&& #[trigger] all_white(after)
            &&& s == before + dots + none + after
        };
    lemma_padding_is_taken_off(before, dots, none, after);
}

/// Of empty texts nothing is left.
pub proof fn lemma_no_types(texts: Seq<Seq<char>>)
    requires
        forall|i: int| 0 <= i < texts.len() ==> (#[trigger] texts[i]).len() == 0,
    ensures
        non_empty_utf8(texts) == Seq::<Seq<u8>>::empty(),
    decreases texts.len(),
{
    if texts.len() > 0 {
        assert(texts[texts.len() - 1].len() == 0);
        assert forall|i: int| 0 <= i < texts.drop_last().len() implies (
        #[trigger] texts.drop_last()[i]).len() == 0 by {
            assert(texts[i].len() == 0);
        }
        lemma_no_types(texts.drop_last());
    }
}

/// Of texts that are empty but for one, that one is left.
pub proof fn lemma_one_type(texts: Seq<Seq<char>>, p: int)
    requires
        0 <= p < texts.len(),
        texts[p].len() > 0,
        forall|i: int| 0 <= i < texts.len() && i != p ==> (#[trigger] texts[i]).len() == 0,
    ensures
        non_empty_utf8(texts) == seq![encode_utf8(texts[p])],
    decreases texts.len(),
{
    let rest = texts.drop_last();
    assert forall|i: int| 0 <= i < rest.len() && i != p implies (#[trigger] rest[i]).len() == 0 by {
        assert(texts[i].len() == 0);
    }
    if p == texts.len() - 1 {
        lemma_no_types(rest);
        assert(non_empty_utf8(texts) =~= seq![encode_utf8(texts[p])]);
    } else {
        assert(texts[texts.len() - 1].len() == 0);
        lemma_one_type(rest, p);
    }
}

} // verus!
