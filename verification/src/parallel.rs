//! Work on the items of a list, spread over the processors.

use rayon::prelude::{IntoParallelIterator, ParallelIterator};
use vstd::prelude::*;

verus! {

/// The values that are there, in order.
pub open spec fn somes<U>(s: Seq<Option<U>>) -> Seq<U>
    decreases s.len(),
{
    if s.len() == 0 {
        Seq::empty()
    } else {
        match s.last() {
            Some(x) => somes(s.drop_last()).push(x),
            None => somes(s.drop_last()),
        }
    }
}

/// `out` holds what `f` gave for the items, in the order of the items.
pub open spec fn mapped<T, U, F: Fn(T) -> U>(f: F, items: Seq<T>, out: Seq<U>) -> bool {
    &&& out.len() == items.len()
    &&& forall|i: int| 0 <= i < items.len() ==> f.ensures((items[i],), #[trigger] out[i])
}

/// `out` holds the values among what `f` gave for the items, in the order of the items.
pub open spec fn filter_mapped<T, U, F: Fn(T) -> Option<U>>(
    f: F,
    items: Seq<T>,
    out: Seq<U>,
) -> bool {
    exists|given: Seq<Option<U>>| mapped(f, items, given) && out == #[trigger] somes(given)
}

/// The `rayon` parallel iterator over a vector, its `filter_map`, and `collect` into a vector:
/// `f` is called once on each item, and the values it gives keep the order of the items.
#[verifier::external_body]
pub(crate) fn par_filter_map<T: Send, U: Send, F>(items: Vec<T>, f: F) -> (out: Vec<U>) where
    F: Fn(T) -> Option<U> + Sync + Send,

    requires
        forall|i: int| 0 <= i < items@.len() ==> f.requires((#[trigger] items@[i],)),
    ensures
        filter_mapped(f, items@, out@),
{
    items.into_par_iter().filter_map(f).collect()
}

/// The `rayon` parallel iterator over a vector, its `map`, and `collect` into a vector: `f` is
/// called once on each item, and what it gives keeps the order of the items.
#[verifier::external_body]
pub(crate) fn par_map<T: Send, U: Send, F>(items: Vec<T>, f: F) -> (out: Vec<U>) where
    F: Fn(T) -> U + Sync + Send,

    requires
        forall|i: int| 0 <= i < items@.len() ==> f.requires((#[trigger] items@[i],)),
    ensures
        mapped(f, items@, out@),
{
    items.into_par_iter().map(f).collect()
}

} // verus!
