//! The directory tree that a scan describes.

use crate::mft::types::{MftRawEntry, FILE_REF_MASK, ROOT_FILE_REF};
use crate::sorting::{ascending, bisected, find_sorted, lemma_same_items, sort, Keyed};
use vstd::prelude::*;

verus! {

/// A parent reference that stands for the root of the volume.
pub open spec fn is_root_ref(parent_ref: u64) -> bool {
    parent_ref == ROOT_FILE_REF & FILE_REF_MASK || parent_ref == 0
}

/// No entry has this reference.
pub open spec fn is_unknown(entries: Seq<MftRawEntry>, file_ref: u64) -> bool {
    forall|p: int| 0 <= p < entries.len() ==> (#[trigger] entries[p]).file_ref != file_ref
}

/// `parents` names for each entry the entry that it lies in: one with the reference that it gives
/// for its parent. Entries that lie in the root of the volume, or whose parent is unknown, have
/// none. Where several entries have the same reference, one of them is the parent of all entries
/// that give this reference.
pub open spec fn parents_of(entries: Seq<MftRawEntry>, parents: Seq<Option<usize>>) -> bool {
    &&& parents.len() == entries.len()
    &&& forall|i: int|
        0 <= i < entries.len() ==> match #[trigger] parents[i] {
            Some(p) => !is_root_ref(entries[i].parent_ref) && p < entries.len()
                && entries[p as int].file_ref == entries[i].parent_ref,
            None => is_root_ref(entries[i].parent_ref) || is_unknown(
                entries,
                entries[i].parent_ref,
            ),
        }
    &&& forall|i: int, j: int|
        0 <= i < entries.len() && 0 <= j < entries.len() && entries[i].parent_ref
            == entries[j].parent_ref ==> #[trigger] parents[i] == #[trigger] parents[j]
}

/// The first `n` entries that have this parent, in order.
pub open spec fn lying_in(parents: Seq<Option<usize>>, parent: Option<usize>, n: int) -> Seq<usize>
    decreases n,
{
    if n <= 0 {
        Seq::empty()
    } else if parents[n - 1] == parent {
        lying_in(parents, parent, n - 1).push((n - 1) as usize)
    } else {
        lying_in(parents, parent, n - 1)
    }
}

/// How many of the first `n` entries have a parent below `m`.
spec fn placed(parents: Seq<Option<usize>>, m: int, n: int) -> nat
    decreases m,
{
    if m <= 0 {
        0
    } else {
        placed(parents, m - 1, n) + lying_in(parents, Some((m - 1) as usize), n).len()
    }
}

/// One entry more has at most one parent more.
proof fn lemma_placed_step(parents: Seq<Option<usize>>, m: int, n: int)
    requires
        0 <= n < parents.len(),
        0 <= m <= parents.len() <= usize::MAX,
    ensures
        placed(parents, m, n + 1) == placed(parents, m, n) + (if parents[n] is Some && parents[n]->0
            < m {
            1int
        } else {
            0int
        }),
    decreases m,
{
    if m > 0 {
        lemma_placed_step(parents, m - 1, n);
    }
}

/// No more entries have a parent than there are entries.
proof fn lemma_placed_bound(parents: Seq<Option<usize>>, m: int, n: int)
    requires
        0 <= n <= parents.len(),
        0 <= m <= parents.len() <= usize::MAX,
    ensures
        placed(parents, m, n) <= n,
    decreases n,
{
    if n > 0 {
        lemma_placed_bound(parents, m, n - 1);
        lemma_placed_step(parents, m, n - 1);
    } else {
        lemma_placed_none(parents, m);
    }
}

proof fn lemma_placed_none(parents: Seq<Option<usize>>, m: int)
    ensures
        placed(parents, m, 0) == 0,
    decreases m,
{
    if m > 0 {
        lemma_placed_none(parents, m - 1);
    }
}

/// The lists of smaller parents end before those of larger ones begin.
proof fn lemma_placed_grows(parents: Seq<Option<usize>>, a: int, b: int, n: int)
    requires
        0 <= a <= b,
    ensures
        placed(parents, a, n) <= placed(parents, b, n),
    decreases b,
{
    if a < b {
        lemma_placed_grows(parents, a, b - 1, n);
    }
}

/// Looking at more entries finds no fewer.
proof fn lemma_lying_in_grows(parents: Seq<Option<usize>>, parent: Option<usize>, a: int, b: int)
    requires
        0 <= a <= b,
    ensures
        lying_in(parents, parent, a).len() <= lying_in(parents, parent, b).len(),
    decreases b,
{
    if a < b {
        lemma_lying_in_grows(parents, parent, a, b - 1);
    }
}

/// What lies in a parent are entries that have this parent.
pub proof fn lemma_lying_in(parents: Seq<Option<usize>>, parent: Option<usize>, n: int)
    requires
        0 <= n <= parents.len() <= usize::MAX,
    ensures
        forall|k: int|
            0 <= k < lying_in(parents, parent, n).len() ==> {
                &&& (#[trigger] lying_in(parents, parent, n)[k]) < n
                &&& parents[lying_in(parents, parent, n)[k] as int] == parent
            },
        forall|i: usize|
            i < n && parents[i as int] == parent ==> #[trigger] lying_in(
                parents,
                parent,
                n,
            ).contains(i),
    decreases n,
{
    if n > 0 {
        let rest = lying_in(parents, parent, n - 1);
        let all = lying_in(parents, parent, n);
        lemma_lying_in(parents, parent, n - 1);
        assert forall|k: int| 0 <= k < all.len() implies {
            &&& (#[trigger] all[k]) < n
            &&& parents[all[k] as int] == parent
        } by {
            if k < rest.len() {
                assert(rest[k] < n - 1);
            }
        }
        assert forall|i: usize| i < n && parents[i as int] == parent implies #[trigger] all.contains(
            i,
        ) by {
            if i < n - 1 {
                assert(rest.contains(i));
                let k = choose|k: int| 0 <= k < rest.len() && rest[k] == i;
                assert(all[k] == i);
            } else {
                assert(all[all.len() - 1] == i);
            }
        }
    }
}

/// An entry under its reference.
#[derive(Clone, Copy)]
struct RefAt {
    file_ref: u64,
    index: usize,
}

impl Keyed for RefAt {
    closed spec fn key(self) -> int {
        self.file_ref as int
    }

    fn at_most(&self, other: &Self) -> (b: bool) {
        self.file_ref <= other.file_ref
    }
}

/// The entries under their references.
spec fn refs_of(entries: Seq<MftRawEntry>) -> Seq<RefAt> {
    Seq::new(
        entries.len(),
        |i: int| RefAt { file_ref: entries[i].file_ref, index: i as usize },
    )
}

/// The entry that a look-up of a reference comes upon.
spec fn looked_up(sorted: Seq<RefAt>, file_ref: u64) -> Option<usize> {
    match bisected(sorted, file_ref as int, 0, sorted.len() as int) {
        Some(k) => Some(sorted[k].index),
        None => None,
    }
}

/// The entry that each entry lies in.
pub(crate) fn find_parents(entries: &Vec<MftRawEntry>) -> (parents: Vec<Option<usize>>)
    ensures
        parents_of(entries@, parents@),
{
    let n: usize = entries.len();
    let mut sorted: Vec<RefAt> = Vec::with_capacity(n);
    let mut i: usize = 0;
    while i < n
        invariant
            i <= n == entries@.len(),
            sorted@ == refs_of(entries@).take(i as int),
        decreases n - i,
    {
        sorted.push(RefAt { file_ref: entries[i].file_ref, index: i });
        assert(sorted@ =~= refs_of(entries@).take(i + 1));
        i += 1;
    }
    assert(sorted@ =~= refs_of(entries@));
    sort(&mut sorted);
    proof {
        lemma_same_items(sorted@, refs_of(entries@));
    }
    let mut parents: Vec<Option<usize>> = Vec::with_capacity(n);
    let mut i: usize = 0;
    while i < n
        invariant
            i <= n == entries@.len(),
            parents@.len() == i,
            ascending(sorted@),
            forall|x: RefAt| #[trigger] sorted@.contains(x) <==> refs_of(entries@).contains(x),
            forall|j: int|
                0 <= j < i ==> #[trigger] parents@[j] == if is_root_ref(entries@[j].parent_ref) {
                    None::<usize>
                } else {
                    looked_up(sorted@, entries@[j].parent_ref)
                },
            forall|j: int|
                0 <= j < i ==> match #[trigger] parents@[j] {
                    Some(p) => p < n && entries@[p as int].file_ref == entries@[j].parent_ref,
                    None => is_root_ref(entries@[j].parent_ref) || is_unknown(
                        entries@,
                        entries@[j].parent_ref,
                    ),
                },
        decreases n - i,
    {
        let parent_ref = entries[i].parent_ref;
        if parent_ref == ROOT_FILE_REF & FILE_REF_MASK || parent_ref == 0 {
            parents.push(None);
        } else {
            let probe = RefAt { file_ref: parent_ref, index: 0 };
            match find_sorted(sorted.as_slice(), &probe) {
                Some(pos) => {
                    proof {
                        let x = sorted@[pos as int];
                        assert(sorted@.contains(x));
                        assert(refs_of(entries@).contains(x));
                        let k = choose|k: int|
                            0 <= k < refs_of(entries@).len() && refs_of(entries@)[k] == x;
                        assert(x.key() == probe.key());
                    }
                    parents.push(Some(sorted[pos].index));
                },
                None => {
                    assert(is_unknown(entries@, parent_ref)) by {
                        assert forall|p: int| 0 <= p < entries@.len() implies (
                        #[trigger] entries@[p]).file_ref != parent_ref by {
                            let x = refs_of(entries@)[p];
                            assert(refs_of(entries@).contains(x));
                            assert(sorted@.contains(x));
                            let k = choose|k: int| 0 <= k < sorted@.len() && sorted@[k] == x;
                            assert(sorted@[k].key() != probe.key());
                        }
                    }
                    parents.push(None);
                },
            }
        }
        i += 1;
    }
    parents
}

/// The entries that lie in each entry, one list behind the other: those in entry `p` stand from
/// `offsets[p]` up to `offsets[p + 1]`.
pub(crate) struct ChildLists {
    pub(crate) offsets: Vec<usize>,
    pub(crate) flat: Vec<usize>,
}

impl ChildLists {
    /// The lists are those of these parents.
    pub(crate) open spec fn lists(&self, parents: Seq<Option<usize>>) -> bool {
        &&& self.offsets@.len() == parents.len() + 1
        &&& forall|p: int|
            0 <= p < parents.len() ==> {
                &&& #[trigger] self.offsets@[p] <= self.offsets@[p + 1] <= self.flat@.len()
                &&& self.flat@.subrange(self.offsets@[p] as int, self.offsets@[p + 1] as int)
                    == lying_in(parents, Some(p as usize), parents.len() as int)
            }
    }

    /// Counts what lies in each entry, gives each list its room, and fills the room in order.
    pub(crate) fn new(parents: &Vec<Option<usize>>) -> (lists: Self)
        requires
            forall|i: int|
                0 <= i < parents@.len() ==> (#[trigger] parents@[i] matches Some(p) ==> p
                    < parents@.len()),
        ensures
            lists.lists(parents@),
    {
        let n: usize = parents.len();
        let ghost ps = parents@;
        let mut counts: Vec<usize> = zeros(n);
        let mut i: usize = 0;
        while i < n
            invariant
                i <= n == ps.len(),
                ps == parents@,
                counts@.len() == n,
                forall|j: int|
                    0 <= j < n ==> (#[trigger] ps[j] matches Some(p) ==> p < n),
                forall|p: int|
                    0 <= p < n ==> #[trigger] counts@[p] == lying_in(
                        ps,
                        Some(p as usize),
                        i as int,
                    ).len(),
            decreases n - i,
        {
            if let Some(p) = parents[i] {
                proof {
                    lemma_lying_in_length(ps, Some(p), i as int);
                }
                let count: usize = counts[p];
                counts.set(p, count + 1);
            }
            i += 1;
        }

        let mut offsets: Vec<usize> = Vec::with_capacity(n);
        offsets.push(0);
        let mut i: usize = 0;
        while i < n
            invariant
                i <= n == ps.len(),
                counts@.len() == n,
                forall|p: int|
                    0 <= p < n ==> #[trigger] counts@[p] == lying_in(
                        ps,
                        Some(p as usize),
                        n as int,
                    ).len(),
                offsets@.len() == i + 1,
                forall|p: int| 0 <= p <= i ==> #[trigger] offsets@[p] == placed(ps, p, n as int),
            decreases n - i,
        {
            let last: usize = offsets[i];
            proof {
                assert(placed(ps, i + 1, n as int) == placed(ps, i as int, n as int) + counts@[i as int]);
                lemma_placed_bound(ps, i + 1, n as int);
            }
            offsets.push(last + counts[i]);
            i += 1;
        }

        let total: usize = offsets[n];
        let mut flat: Vec<usize> = zeros(total);
        let mut fill: Vec<usize> = copied(&offsets);
        let mut i: usize = 0;
        assert forall|p: int| 0 <= p < n implies #[trigger] fill@[p] == offsets@[p] + lying_in(
            ps,
            Some(p as usize),
            0,
        ).len() by {
        }
        while i < n
            invariant
                i <= n == ps.len(),
                ps == parents@,
                forall|j: int|
                    0 <= j < n ==> (#[trigger] ps[j] matches Some(p) ==> p < n),
                offsets@.len() == n + 1,
                fill@.len() == n + 1,
                forall|p: int| 0 <= p <= n ==> #[trigger] offsets@[p] == placed(ps, p, n as int),
                flat@.len() == total == offsets@[n as int],
                forall|p: int|
                    0 <= p < n ==> #[trigger] fill@[p] == offsets@[p] + lying_in(
                        ps,
                        Some(p as usize),
                        i as int,
                    ).len(),
                forall|p: int, t: int|
                    0 <= p < n && 0 <= t < lying_in(ps, Some(p as usize), i as int).len()
                        ==> flat@[offsets@[p] + t] == #[trigger] lying_in(
                        ps,
                        Some(p as usize),
                        i as int,
                    )[t],
            decreases n - i,
        {
            if let Some(p) = parents[i] {
                let slot: usize = fill[p];
                let ghost before = flat@;
                proof {
                    lemma_lying_in_grows(ps, Some(p), i + 1, n as int);
                    lemma_placed_grows(ps, p + 1, n as int, n as int);
                    assert(offsets@[p + 1] == placed(ps, p + 1, n as int));
                    assert(placed(ps, p + 1, n as int) == placed(ps, p as int, n as int) + lying_in(
                        ps,
                        Some(p),
                        n as int,
                    ).len());
                }
                flat.set(slot, i);
                fill.set(p, slot + 1);
                proof {
                    assert forall|q: int, t: int|
                        0 <= q < n && 0 <= t < lying_in(ps, Some(q as usize), i + 1).len()
                            implies flat@[offsets@[q] + t] == #[trigger] lying_in(
                        ps,
                        Some(q as usize),
                        i + 1,
                    )[t] by {
                        let list = lying_in(ps, Some(q as usize), i as int);
                        assert(offsets@[q] == placed(ps, q, n as int));
                        if q == p {
                            assert(lying_in(ps, Some(q as usize), i + 1) == list.push(i));
                            if t < list.len() {
                                assert(before[offsets@[q] + t] == list[t]);
                                assert(flat@[offsets@[q] + t] == before[offsets@[q] + t]);
                            } else {
                                assert(flat@[slot as int] == i);
                            }
                        } else {
                            assert(lying_in(ps, Some(q as usize), i + 1) == list);
                            assert(before[offsets@[q] + t] == list[t]);
                            lemma_lying_in_grows(ps, Some(q as usize), i as int, n as int);
                            assert(placed(ps, q + 1, n as int) == placed(ps, q, n as int)
                                + lying_in(ps, Some(q as usize), n as int).len());
                            if q < p {
                                lemma_placed_grows(ps, q + 1, p as int, n as int);
                            } else {
                                lemma_placed_grows(ps, p + 1, q, n as int);
                            }
                            lemma_placed_grows(ps, q + 1, n as int, n as int);
                            assert(offsets@[p as int] == placed(ps, p as int, n as int));
                            assert(flat@[offsets@[q] + t] == before[offsets@[q] + t]);
                        }
                    }
                }
            } else {
                assert forall|q: int, t: int|
                    0 <= q < n && 0 <= t < lying_in(ps, Some(q as usize), i + 1).len()
                        implies flat@[offsets@[q] + t] == #[trigger] lying_in(
                    ps,
                    Some(q as usize),
                    i + 1,
                )[t] by {
                    let list = lying_in(ps, Some(q as usize), i as int);
                    assert(lying_in(ps, Some(q as usize), i + 1) == list);
                    assert(flat@[offsets@[q] + t] == list[t]);
                }
            }
            i += 1;
        }
        let lists = ChildLists { offsets, flat };
        proof {
            assert forall|p: int| 0 <= p < ps.len() implies {
                &&& #[trigger] lists.offsets@[p] <= lists.offsets@[p + 1] <= lists.flat@.len()
                &&& lists.flat@.subrange(lists.offsets@[p] as int, lists.offsets@[p + 1] as int)
                    == lying_in(ps, Some(p as usize), ps.len() as int)
            } by {
                assert(lists.offsets@[p + 1] == placed(ps, p + 1, n as int));
                lemma_placed_grows(ps, p + 1, n as int, n as int);
                assert(lists.flat@.subrange(
                    lists.offsets@[p] as int,
                    lists.offsets@[p + 1] as int,
                ) =~= lying_in(ps, Some(p as usize), ps.len() as int));
            }
        }
        lists
    }
}

/// No more entries lie in a parent than were looked at.
proof fn lemma_lying_in_length(parents: Seq<Option<usize>>, parent: Option<usize>, n: int)
    requires
        0 <= n,
    ensures
        lying_in(parents, parent, n).len() <= n,
    decreases n,
{
    if n > 0 {
        lemma_lying_in_length(parents, parent, n - 1);
    }
}

fn zeros(n: usize) -> (v: Vec<usize>)
    ensures
        v@.len() == n,
        forall|i: int| 0 <= i < n ==> #[trigger] v@[i] == 0,
{
    let mut v: Vec<usize> = Vec::with_capacity(n);
    let mut i: usize = 0;
    while i < n
        invariant
            i <= n,
            v@.len() == i,
            forall|j: int| 0 <= j < i ==> #[trigger] v@[j] == 0,
        decreases n - i,
    {
        v.push(0);
        i += 1;
    }
    v
}

fn copied(v: &Vec<usize>) -> (w: Vec<usize>)
    ensures
        w@ == v@,
{
    let w = vstd::slice::slice_to_vec(v.as_slice());
    assert(w@ =~= v@);
    w
}

/// The entry lies this deep below the entries without a parent.
pub open spec fn at_depth(parents: Seq<Option<usize>>, i: usize, depth: nat) -> bool
    decreases depth,
{
    &&& i < parents.len()
    &&& if depth == 0 {
        parents[i as int] is None
    } else {
        parents[i as int] matches Some(p) && at_depth(parents, p, (depth - 1) as nat)
    }
}

/// An entry lies at one depth only.
proof fn lemma_one_depth(parents: Seq<Option<usize>>, i: usize, a: nat, b: nat)
    requires
        at_depth(parents, i, a),
        at_depth(parents, i, b),
    ensures
        a == b,
    decreases a,
{
    if a > 0 && b > 0 {
        lemma_one_depth(parents, parents[i as int]->0, (a - 1) as nat, (b - 1) as nat);
    }
}

/// The entries on the way down to an entry.
spec fn way_down(parents: Seq<Option<usize>>, i: usize, depth: nat) -> Seq<int>
    decreases depth,
{
    if depth == 0 {
        seq![i as int]
    } else {
        way_down(parents, parents[i as int]->0, (depth - 1) as nat).push(i as int)
    }
}

proof fn lemma_way_down(parents: Seq<Option<usize>>, i: usize, depth: nat)
    requires
        at_depth(parents, i, depth),
    ensures
        way_down(parents, i, depth).len() == depth + 1,
        forall|k: int|
            0 <= k <= depth ==> {
                &&& 0 <= #[trigger] way_down(parents, i, depth)[k] < parents.len()
                &&& way_down(parents, i, depth)[k] <= usize::MAX
                &&& at_depth(parents, way_down(parents, i, depth)[k] as usize, k as nat)
            },
    decreases depth,
{
    if depth > 0 {
        lemma_way_down(parents, parents[i as int]->0, (depth - 1) as nat);
    }
}

/// Nothing lies deeper than there are entries.
pub proof fn lemma_depth_bound(parents: Seq<Option<usize>>, i: usize, depth: nat)
    requires
        at_depth(parents, i, depth),
    ensures
        depth < parents.len(),
{
    let way = way_down(parents, i, depth);
    lemma_way_down(parents, i, depth);
    assert(way.no_duplicates()) by {
        assert forall|a: int, b: int|
            0 <= a < way.len() && 0 <= b < way.len() && a != b implies way[a] != way[b] by {
            if way[a] == way[b] {
                lemma_one_depth(parents, way[a] as usize, a as nat, b as nat);
            }
        }
    }
    way.unique_seq_to_set();
    let all = vstd::set_lib::set_int_range(0, parents.len() as int);
    vstd::set_lib::lemma_int_range(0, parents.len() as int);
    assert(way.to_set().subset_of(all)) by {
        assert forall|x: int| #[trigger] way.to_set().contains(x) implies all.contains(x) by {
            assert(way.contains(x));
        }
    }
    vstd::set_lib::lemma_len_subset(way.to_set(), all);
}

/// The entry `j` lies so many levels below the entry `i`.
pub open spec fn lies_below(parents: Seq<Option<usize>>, j: usize, i: usize, levels: nat) -> bool
    decreases levels,
{
    if levels == 0 {
        j == i
    } else {
        &&& j < parents.len()
        &&& parents[j as int] matches Some(p) && lies_below(parents, p, i, (levels - 1) as nat)
    }
}

/// What lies below an entry lies so many levels deeper.
proof fn lemma_depth_below(
    parents: Seq<Option<usize>>,
    j: usize,
    i: usize,
    levels: nat,
    depth: nat,
)
    requires
        lies_below(parents, j, i, levels),
        at_depth(parents, i, depth),
    ensures
        at_depth(parents, j, depth + levels),
    decreases levels,
{
    if levels > 0 {
        lemma_depth_below(parents, parents[j as int]->0, i, (levels - 1) as nat, depth);
    }
}

proof fn lemma_one_above(parents: Seq<Option<usize>>, j: usize, a: usize, b: usize, levels: nat)
    requires
        lies_below(parents, j, a, levels),
        lies_below(parents, j, b, levels),
    ensures
        a == b,
    decreases levels,
{
    if levels > 0 {
        lemma_one_above(parents, parents[j as int]->0, a, b, (levels - 1) as nat);
    }
}

/// Of the entries at one depth, at most one lies above a given entry.
pub proof fn lemma_below_one_only(
    parents: Seq<Option<usize>>,
    j: usize,
    a: usize,
    levels_a: nat,
    b: usize,
    levels_b: nat,
    depth: nat,
)
    requires
        lies_below(parents, j, a, levels_a),
        lies_below(parents, j, b, levels_b),
        at_depth(parents, a, depth),
        at_depth(parents, b, depth),
    ensures
        a == b,
{
    lemma_depth_below(parents, j, a, levels_a, depth);
    lemma_depth_below(parents, j, b, levels_b, depth);
    lemma_one_depth(parents, j, depth + levels_a, depth + levels_b);
    lemma_one_above(parents, j, a, b, levels_a);
}

/// Nothing that lies below an entry lies at the depth of the entry.
pub proof fn lemma_below_is_deeper(
    parents: Seq<Option<usize>>,
    j: usize,
    i: usize,
    levels: nat,
    depth: nat,
)
    requires
        lies_below(parents, j, i, levels),
        levels > 0,
        at_depth(parents, i, depth),
    ensures
        j != i,
{
    lemma_depth_below(parents, j, i, levels, depth);
    if j == i {
        lemma_one_depth(parents, i, depth, depth + levels);
    }
}

/// A step down from below an entry stays below it.
pub proof fn lemma_below_child(
    parents: Seq<Option<usize>>,
    j: usize,
    c: usize,
    i: usize,
    levels: nat,
)
    requires
        lies_below(parents, j, c, levels),
        c < parents.len(),
        parents[c as int] == Some(i),
    ensures
        lies_below(parents, j, i, levels + 1),
    decreases levels,
{
    if levels > 0 {
        lemma_below_child(parents, parents[j as int]->0, c, i, (levels - 1) as nat);
    } else {
        assert(lies_below(parents, i, i, 0));
    }
}

/// No entry is listed twice among those that lie in a parent.
pub proof fn lemma_lying_in_once(parents: Seq<Option<usize>>, parent: Option<usize>, n: int)
    requires
        0 <= n <= parents.len() <= usize::MAX,
    ensures
        lying_in(parents, parent, n).no_duplicates(),
    decreases n,
{
    if n > 0 {
        lemma_lying_in_once(parents, parent, n - 1);
        lemma_lying_in(parents, parent, n - 1);
        let rest = lying_in(parents, parent, n - 1);
        let all = lying_in(parents, parent, n);
        assert forall|a: int, b: int| 0 <= a < b < all.len() implies all[a] != all[b] by {
            assert(rest[a] < n - 1);
            if b < rest.len() {
                assert(rest[a] != rest[b]);
            }
        }
    }
}

} // verus!
