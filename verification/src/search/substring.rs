//! Looking for a byte string in another.

use memchr::memmem::Finder;
use vstd::prelude::*;

verus! {

/// The substring searcher of the `memchr` crate, known by the needle that it looks for.
#[verifier::external_type_specification]
#[verifier::external_body]
pub struct ExFinder<'n>(memchr::memmem::Finder<'n>);

/// The bytes that a finder looks for.
pub uninterp spec fn needle_of(finder: Finder<'_>) -> Seq<u8>;

/// The needle stands in the haystack at this place.
pub open spec fn occurs_at(haystack: Seq<u8>, needle: Seq<u8>, at: int) -> bool {
    &&& 0 <= at
    &&& at + needle.len() <= haystack.len()
    &&& haystack.subrange(at, at + needle.len()) == needle
}

/// The first place at or behind `from` where the needle stands.
pub open spec fn first_from(haystack: Seq<u8>, needle: Seq<u8>, from: int) -> Option<int>
    decreases haystack.len() + 1 - from,
{
    if from + needle.len() > haystack.len() {
        None
    } else if occurs_at(haystack, needle, from) {
        Some(from)
    } else {
        first_from(haystack, needle, from + 1)
    }
}

/// The first place where the needle stands.
pub open spec fn first_occurrence(haystack: Seq<u8>, needle: Seq<u8>) -> Option<int> {
    first_from(haystack, needle, 0)
}

/// `found` is the least place where the needle stands, if it stands anywhere.
pub open spec fn found_first(haystack: Seq<u8>, needle: Seq<u8>, found: Option<usize>) -> bool {
    match found {
        Some(p) => {
            &&& occurs_at(haystack, needle, p as int)
            &&& forall|q: int| 0 <= q < p ==> !(#[trigger] occurs_at(haystack, needle, q))
        },
        None => forall|q: int| !(#[trigger] occurs_at(haystack, needle, q)),
    }
}

/// The first occurrence from a place on is the least one there.
pub(crate) proof fn lemma_first_from(haystack: Seq<u8>, needle: Seq<u8>, from: int)
    requires
        0 <= from,
    ensures
        match first_from(haystack, needle, from) {
            Some(p) => {
                &&& from <= p
                &&& occurs_at(haystack, needle, p)
                &&& forall|q: int| from <= q < p ==> !(#[trigger] occurs_at(haystack, needle, q))
            },
            None => forall|q: int| from <= q ==> !(#[trigger] occurs_at(haystack, needle, q)),
        },
    decreases haystack.len() + 1 - from,
{
    if from + needle.len() <= haystack.len() && !occurs_at(haystack, needle, from) {
        lemma_first_from(haystack, needle, from + 1);
    }
}

/// `Finder::new`: a finder for the given needle.
#[verifier::external_body]
pub(crate) fn new_finder<'n>(needle: &'n [u8]) -> (finder: Finder<'n>)
    ensures
        needle_of(finder) == needle@,
{
    Finder::new(needle)
}

/// `Finder::find`: the place of the first occurrence of the needle, which for an empty needle is
/// the start.
#[verifier::external_body]
pub(crate) fn find_first(finder: &Finder<'_>, haystack: &[u8]) -> (found: Option<usize>)
    ensures
        found_first(haystack@, needle_of(*finder), found),
{
    finder.find(haystack)
}

} // verus!
