//! Sorting, deduplication and look-up of keyed items, built on a binary heap.

use vstd::prelude::*;

verus! {

/// A small value with an integer key by which it is put in order.
pub trait Keyed: Copy {
    /// The key of the value.
    spec fn key(self) -> int;

    /// Whether the key of `self` is at most that of `other`.
    fn at_most(&self, other: &Self) -> (b: bool)
        ensures
            b == (self.key() <= other.key()),
    ;
}

/// A keyed value that is determined by its key.
pub trait UniquelyKeyed: Keyed {
    proof fn key_determines(a: Self, b: Self)
        requires
            a.key() == b.key(),
        ensures
            a == b,
    ;
}

impl Keyed for u32 {
    open spec fn key(self) -> int {
        self as int
    }

    fn at_most(&self, other: &Self) -> (b: bool) {
        *self <= *other
    }
}

impl UniquelyKeyed for u32 {
    proof fn key_determines(a: Self, b: Self) {
    }
}

impl Keyed for usize {
    open spec fn key(self) -> int {
        self as int
    }

    fn at_most(&self, other: &Self) -> (b: bool) {
        *self <= *other
    }
}

impl UniquelyKeyed for usize {
    proof fn key_determines(a: Self, b: Self) {
    }
}

/// The keys ascend; equal keys may stand side by side.
pub open spec fn ascending<T: Keyed>(s: Seq<T>) -> bool {
    forall|i: int, j: int| 0 <= i <= j < s.len() ==> (#[trigger] s[i]).key() <= (#[trigger] s[j]).key()
}

/// The keys ascend and no key occurs twice.
pub open spec fn strictly_ascending<T: Keyed>(s: Seq<T>) -> bool {
    forall|i: int, j: int| 0 <= i < j < s.len() ==> (#[trigger] s[i]).key() < (#[trigger] s[j]).key()
}

/// `out` lists the distinct items of `s` in ascending order of their keys.
pub open spec fn sorted_set_of<T: Keyed>(out: Seq<T>, s: Seq<T>) -> bool {
    &&& strictly_ascending(out)
    &&& forall|x: T| #[trigger] out.contains(x) <==> s.contains(x)
}

/// The position above `i` in a heap.
pub open spec fn parent(i: int) -> int {
    (i - 1) / 2
}

/// No item has a larger key than the item above it.
pub open spec fn heap_ordered<T: Keyed>(s: Seq<T>) -> bool {
    forall|i: int| 0 < i < s.len() ==> (#[trigger] s[i]).key() <= s[parent(i)].key()
}

/// A heap but for the item at `p`, which may be larger than what stands above it.
spec fn heap_but_for_rise<T: Keyed>(s: Seq<T>, p: int) -> bool {
    &&& 0 <= p < s.len()
    &&& forall|i: int| 0 < i < s.len() && i != p ==> (#[trigger] s[i]).key() <= s[parent(i)].key()
    &&& forall|i: int| 0 < i < s.len() && p > 0 && parent(i) == p ==> (#[trigger] s[i]).key() <= s[parent(p)].key()
}

/// A heap but for the item at `p`, which may be smaller than what stands below it.
spec fn heap_but_for_fall<T: Keyed>(s: Seq<T>, p: int) -> bool {
    &&& 0 <= p < s.len()
    &&& forall|i: int| 0 < i < s.len() && parent(i) != p ==> (#[trigger] s[i]).key() <= s[parent(i)].key()
    &&& forall|i: int| 0 < i < s.len() && p > 0 && parent(i) == p ==> (#[trigger] s[i]).key() <= s[parent(p)].key()
}

proof fn lemma_root_is_largest<T: Keyed>(s: Seq<T>, i: int)
    requires
        heap_ordered(s),
        0 <= i < s.len(),
    ensures
        s[i].key() <= s[0].key(),
    decreases i,
{
    if i > 0 {
        lemma_root_is_largest(s, parent(i));
    }
}

/// Exchanging two items leaves the multiset of items alone.
pub proof fn lemma_swap_keeps_items<T>(s: Seq<T>, i: int, j: int)
    requires
        0 <= i < s.len(),
        0 <= j < s.len(),
    ensures
        s.update(i, s[j]).update(j, s[i]).to_multiset() == s.to_multiset(),
{
    broadcast use vstd::seq_lib::group_to_multiset_ensures;
    let t = s.update(i, s[j]);
    let u = t.update(j, s[i]);
    vstd::seq_lib::to_multiset_update(s, i, s[j]);
    vstd::seq_lib::to_multiset_update(t, j, s[i]);
    assert(u.to_multiset() =~= s.to_multiset());
}

/// A binary heap that gives out its items by descending key.
pub struct MaxHeap<T: Keyed> {
    items: Vec<T>,
}

impl<T: Keyed> View for MaxHeap<T> {
    type V = Seq<T>;

    closed spec fn view(&self) -> Seq<T> {
        self.items@
    }
}

impl<T: Keyed> MaxHeap<T> {
    /// The items stand in heap order.
    pub open spec fn well_formed(&self) -> bool {
        heap_ordered(self@)
    }

    pub fn with_capacity(capacity: usize) -> (heap: Self)
        ensures
            heap.well_formed(),
            heap@ == Seq::<T>::empty(),
    {
        MaxHeap { items: Vec::with_capacity(capacity) }
    }

    pub fn len(&self) -> (n: usize)
        ensures
            n == self@.len(),
    {
        self.items.len()
    }

    /// Gives up the items, in the order in which the heap holds them.
    pub fn into_vec(self) -> (items: Vec<T>)
        ensures
            items@ == self@,
    {
        self.items
    }

    fn swap(&mut self, i: usize, j: usize)
        requires
            i < old(self)@.len(),
            j < old(self)@.len(),
        ensures
            final(self)@ == old(self)@.update(i as int, old(self)@[j as int]).update(
                j as int,
                old(self)@[i as int],
            ),
            final(self)@.to_multiset() == old(self)@.to_multiset(),
    {
        let a = self.items[i];
        let b = self.items[j];
        self.items.set(i, b);
        self.items.set(j, a);
        proof {
            lemma_swap_keeps_items(old(self)@, i as int, j as int);
        }
    }

    /// Adds one item.
    pub fn push(&mut self, item: T)
        requires
            old(self).well_formed(),
        ensures
            final(self).well_formed(),
            final(self)@.len() == old(self)@.len() + 1,
            final(self)@.to_multiset() == old(self)@.to_multiset().insert(item),
    {
        broadcast use vstd::seq_lib::group_to_multiset_ensures;
        self.items.push(item);
        let mut at: usize = self.items.len() - 1;
        assert(self@ =~= old(self)@.push(item));
        assert(heap_but_for_rise(self@, at as int));
        while at > 0 && !self.items[at].at_most(&self.items[(at - 1) / 2])
            invariant
                at < self@.len(),
                heap_but_for_rise(self@, at as int),
                self@.len() == old(self)@.len() + 1,
                self@.to_multiset() == old(self)@.to_multiset().insert(item),
            decreases at,
        {
            let up: usize = (at - 1) / 2;
            let ghost before = self@;
            self.swap(at, up);
            proof {
                assert forall|i: int| 0 < i < self@.len() && i != up implies (#[trigger] self@[i]).key()
                    <= self@[parent(i)].key() by {
                    assert(before[i].key() <= before[parent(i)].key() || i == at);
                }
                assert forall|i: int|
                    0 < i < self@.len() && up > 0 && parent(i) == up implies (#[trigger] self@[i]).key()
                    <= self@[parent(up as int)].key() by {
                    assert(before[up as int].key() <= before[parent(up as int)].key());
                    assert(before[i].key() <= before[parent(i)].key() || i == at);
                }
            }
            at = up;
        }
    }

    /// Takes out an item with the largest key.
    pub fn pop(&mut self) -> (item: Option<T>)
        requires
            old(self).well_formed(),
        ensures
            final(self).well_formed(),
            match item {
                Some(x) => {
                    &&& old(self)@.len() > 0
                    &&& final(self)@.len() == old(self)@.len() - 1
                    &&& old(self)@.contains(x)
                    &&& old(self)@.to_multiset() == final(self)@.to_multiset().insert(x)
                    &&& forall|y: T| #[trigger] old(self)@.contains(y) ==> y.key() <= x.key()
                },
                None => old(self)@.len() == 0 && final(self)@ == old(self)@,
            },
    {
        broadcast use vstd::seq_lib::group_to_multiset_ensures;
        if self.items.len() == 0 {
            return None;
        }
        let top = self.items[0];
        let last: usize = self.items.len() - 1;
        proof {
            assert(old(self)@[0] == top);
            assert forall|y: T| #[trigger] old(self)@.contains(y) implies y.key() <= top.key() by {
                let i = choose|i: int| 0 <= i < old(self)@.len() && old(self)@[i] == y;
                lemma_root_is_largest(old(self)@, i);
            }
        }
        self.swap(0, last);
        let ghost swapped = self@;
        self.items.pop();
        proof {
            assert(swapped =~= self@.push(top));
            assert(old(self)@.to_multiset() =~= self@.to_multiset().insert(top));
        }
        if last > 0 {
            assert forall|i: int| 0 < i < self@.len() && parent(i) != 0 implies (#[trigger] self@[i]).key()
                <= self@[parent(i)].key() by {
                assert(old(self)@[i].key() <= old(self)@[parent(i)].key());
            }
            self.sift_down();
        }
        Some(top)
    }

    /// Restores the heap after its first item was replaced.
    fn sift_down(&mut self)
        requires
            heap_but_for_fall(old(self)@, 0),
        ensures
            final(self).well_formed(),
            final(self)@.len() == old(self)@.len(),
            final(self)@.to_multiset() == old(self)@.to_multiset(),
    {
        let n: usize = self.items.len();
        let mut at: usize = 0;
        loop
            invariant
                n == self@.len(),
                n == old(self)@.len(),
                at < n,
                heap_but_for_fall(self@, at as int),
                self@.to_multiset() == old(self)@.to_multiset(),
            ensures
                self.well_formed(),
            decreases n - at,
        {
            if at >= n / 2 {
                assert forall|i: int| 0 < i < self@.len() implies (#[trigger] self@[i]).key()
                    <= self@[parent(i)].key() by {
                    assert(parent(i) != at);
                }
                break;
            }
            let left: usize = 2 * at + 1;
            let right: usize = left + 1;
            let child: usize = if right < n && self.items[left].at_most(&self.items[right]) {
                right
            } else {
                left
            };
            assert(parent(child as int) == at);
            if self.items[child].at_most(&self.items[at]) {
                assert forall|i: int| 0 < i < self@.len() implies (#[trigger] self@[i]).key()
                    <= self@[parent(i)].key() by {
                    assert(parent(i) == at ==> i == left || i == right);
                }
                break;
            }
            let ghost before = self@;
            self.swap(at, child);
            proof {
                assert forall|i: int| 0 < i < self@.len() && parent(i) != child implies (
                #[trigger] self@[i]).key() <= self@[parent(i)].key() by {
                    if parent(i) == at {
                        assert(i == left || i == right);
                    } else {
                        assert(before[i].key() <= before[parent(i)].key());
                    }
                }
                assert forall|i: int|
                    0 < i < self@.len() && parent(i) == child implies (#[trigger] self@[i]).key()
                    <= self@[parent(child as int)].key() by {
                    assert(before[i].key() <= before[parent(i)].key());
                }
            }
            at = child;
        }
    }
}

fn is_ascending<T: Keyed>(v: &Vec<T>) -> (b: bool)
    ensures
        b == ascending(v@),
{
    let mut i: usize = 1;
    while i < v.len()
        invariant
            1 <= i,
            v@.len() > 0 ==> i <= v@.len(),
            forall|j: int, k: int| 0 <= j <= k < i && k < v@.len() ==> (#[trigger] v@[j]).key() <= (
            #[trigger] v@[k]).key(),
        decreases v.len() - i,
    {
        if !v[i - 1].at_most(&v[i]) {
            assert(v@[i - 1].key() > v@[i as int].key());
            return false;
        }
        assert(v@[i - 1].key() <= v@[i as int].key());
        i += 1;
    }
    true
}

/// Puts the items in ascending order of their keys. Where keys are equal, the order of the items
/// is left open.
pub fn sort<T: Keyed>(v: &mut Vec<T>)
    ensures
        ascending(final(v)@),
        final(v)@.to_multiset() == old(v)@.to_multiset(),
{
    broadcast use vstd::seq_lib::group_to_multiset_ensures;
    if is_ascending(v) {
        return;
    }
    let n: usize = v.len();
    let mut heap = MaxHeap::with_capacity(n);
    let mut i: usize = 0;
    while i < n
        invariant
            i <= n,
            n == v@.len(),
            v@ == old(v)@,
            heap.well_formed(),
            heap@.len() == i,
            heap@.to_multiset() == v@.take(i as int).to_multiset(),
        decreases n - i,
    {
        broadcast use vstd::seq_lib::group_to_multiset_ensures;
        heap.push(v[i]);
        assert(v@.take(i + 1) =~= v@.take(i as int).push(v@[i as int]));
        i += 1;
    }
    assert(v@.take(n as int) =~= v@);
    assert(v@.skip(n as int).to_multiset() =~= vstd::multiset::Multiset::empty());
    assert(heap@.to_multiset().add(v@.skip(n as int).to_multiset()) =~= old(v)@.to_multiset());
    while i > 0
        invariant
            i <= n,
            n == v@.len(),
            heap.well_formed(),
            heap@.len() == i,
            ascending(v@.skip(i as int)),
            forall|x: T, j: int|
                #[trigger] heap@.contains(x) && i <= j < n ==> x.key() <= (#[trigger] v@[j]).key(),
            heap@.to_multiset().add(v@.skip(i as int).to_multiset()) == old(v)@.to_multiset(),
        decreases i,
    {
        broadcast use vstd::seq_lib::group_to_multiset_ensures;
        let ghost items = heap@;
        let ghost tail = v@.skip(i as int);
        if let Some(x) = heap.pop() {
            i -= 1;
            v.set(i, x);
            proof {
                assert(v@.skip(i as int) =~= seq![x] + tail);
                assert(seq![x] =~= Seq::<T>::empty().push(x));
                vstd::seq_lib::lemma_multiset_commutative(seq![x], tail);
                assert(seq![x].to_multiset() =~= vstd::multiset::Multiset::empty().insert(x));
                assert(heap@.to_multiset().add(v@.skip(i as int).to_multiset())
                    =~= items.to_multiset().add(tail.to_multiset()));
                assert forall|y: T| #[trigger] heap@.contains(y) implies items.contains(y) by {
                    assert(heap@.to_multiset().count(y) > 0);
                    assert(items.to_multiset().count(y) > 0);
                }
                assert forall|j: int, k: int|
                    0 <= j <= k < v@.skip(i as int).len() implies (#[trigger] v@.skip(
                    i as int,
                )[j]).key() <= (#[trigger] v@.skip(i as int)[k]).key() by {
                    if j > 0 {
                        assert(tail[j - 1].key() <= tail[k - 1].key());
                    } else if k > 0 {
                        assert(items.contains(x));
                        assert(v@[i + k] == tail[k - 1]);
                    }
                }
            }
        }
    }
    assert(v@.skip(0) =~= v@);
    assert(heap@.to_multiset() =~= vstd::multiset::Multiset::empty());
    assert(v@.to_multiset() =~= old(v)@.to_multiset());
}

/// The same multiset of items means the same items.
pub proof fn lemma_same_items<T>(a: Seq<T>, b: Seq<T>)
    requires
        a.to_multiset() == b.to_multiset(),
    ensures
        a.len() == b.len(),
        forall|x: T| #[trigger] a.contains(x) <==> b.contains(x),
{
    broadcast use vstd::seq_lib::group_to_multiset_ensures;
    assert(a.len() == a.to_multiset().len() && b.len() == b.to_multiset().len());
    assert forall|x: T| #[trigger] a.contains(x) <==> b.contains(x) by {
        assert(a.contains(x) <==> a.to_multiset().count(x) > 0);
        assert(b.contains(x) <==> b.to_multiset().count(x) > 0);
    }
}

/// Mapping two sequences of the same items gives two sequences of the same images.
pub proof fn lemma_map_keeps_items<T, U>(a: Seq<T>, b: Seq<T>, f: spec_fn(T) -> U)
    requires
        a.to_multiset() == b.to_multiset(),
    ensures
        a.map_values(f).to_multiset() == b.map_values(f).to_multiset(),
    decreases a.len(),
{
    broadcast use vstd::seq_lib::group_to_multiset_ensures;
    lemma_same_items(a, b);
    if a.len() > 0 {
        let rest = a.drop_last();
        assert(a =~= rest.push(a.last()));
        assert(a.contains(a.last()));
        let i = choose|i: int| 0 <= i < b.len() && b[i] == a.last();
        let others = b.remove(i);
        assert(rest.to_multiset() =~= others.to_multiset()) by {
            assert(rest.to_multiset().insert(a.last()) == others.insert(i, a.last()).to_multiset())
                by {
                assert(others.insert(i, a.last()) =~= b);
            }
            assert(rest.to_multiset().insert(a.last()) == others.to_multiset().insert(a.last()));
            assert(rest.to_multiset() =~= rest.to_multiset().insert(a.last()).remove(a.last()));
            assert(others.to_multiset() =~= others.to_multiset().insert(a.last()).remove(a.last()));
        }
        lemma_map_keeps_items(rest, others, f);
        assert(a.map_values(f) =~= rest.map_values(f).push(f(a.last())));
        assert(b.map_values(f) =~= others.map_values(f).insert(i, f(a.last())));
    } else {
        assert(a.map_values(f) =~= b.map_values(f));
    }
}

/// Sorts the items and leaves one of each.
pub fn sort_dedup<T: UniquelyKeyed>(v: &mut Vec<T>)
    ensures
        sorted_set_of(final(v)@, old(v)@),
{
    sort(v);
    proof {
        lemma_same_items(v@, old(v)@);
    }
    let ghost sorted = v@;
    let mut kept: Vec<T> = Vec::with_capacity(v.len());
    let mut i: usize = 0;
    while i < v.len()
        invariant
            i <= v@.len(),
            v@ == sorted,
            ascending(sorted),
            strictly_ascending(kept@),
            i > 0 ==> kept@.len() > 0 && kept@.last().key() == sorted[i - 1].key(),
            i == 0 ==> kept@.len() == 0,
            forall|x: T| #[trigger] kept@.contains(x) <==> sorted.take(i as int).contains(x),
        decreases v.len() - i,
    {
        let ghost before = kept@;
        let x = v[i];
        if kept.len() == 0 || !x.at_most(&kept[kept.len() - 1]) {
            kept.push(x);
            proof {
                assert forall|y: T| #[trigger] kept@.contains(y) <==> sorted.take(i + 1).contains(y) by {
                    lemma_push_contains(before, x, y);
                    assert(sorted.take(i + 1) =~= sorted.take(i as int).push(x));
                    lemma_push_contains(sorted.take(i as int), x, y);
                }
                assert forall|j: int, k: int| 0 <= j < k < kept@.len() implies (
                #[trigger] kept@[j]).key() < (#[trigger] kept@[k]).key() by {
                    if k == before.len() && j < before.len() - 1 {
                        assert(before[j].key() < before[before.len() - 1].key());
                    }
                }
            }
        } else {
            proof {
                assert(sorted[i - 1].key() <= sorted[i as int].key());
                T::key_determines(x, kept@.last());
                assert forall|y: T| #[trigger] kept@.contains(y) <==> sorted.take(i + 1).contains(y) by {
                    assert(sorted.take(i + 1) =~= sorted.take(i as int).push(x));
                    lemma_push_contains(sorted.take(i as int), x, y);
                    assert(kept@.contains(x)) by {
                        assert(kept@[kept@.len() - 1] == x);
                    }
                }
            }
        }
        i += 1;
    }
    assert(sorted.take(i as int) =~= sorted);
    *v = kept;
}

/// Pushing one item adds that item and no other.
pub proof fn lemma_push_contains<T>(s: Seq<T>, x: T, y: T)
    ensures
        s.push(x).contains(y) <==> s.contains(y) || x == y,
{
    if s.contains(y) {
        let i = choose|i: int| 0 <= i < s.len() && s[i] == y;
        assert(s.push(x)[i] == y);
    }
    if x == y {
        assert(s.push(x)[s.len() as int] == y);
    }
    if s.push(x).contains(y) && x != y {
        let i = choose|i: int| 0 <= i < s.push(x).len() && s.push(x)[i] == y;
        assert(s[i] == y);
    }
}

/// Where halving the range from `lo` to `hi` over and over comes upon an item with the given key.
pub open spec fn bisected<T: Keyed>(v: Seq<T>, key: int, lo: int, hi: int) -> Option<int>
    decreases hi - lo,
{
    if lo >= hi {
        None
    } else {
        let mid = lo + (hi - lo) / 2;
        if v[mid].key() < key {
            bisected(v, key, mid + 1, hi)
        } else if v[mid].key() > key {
            bisected(v, key, lo, mid)
        } else {
            Some(mid)
        }
    }
}

/// Looks for an item with the key of `probe`. Where several items have that key, the list and the
/// key alone decide which of them is found.
pub fn find_sorted<T: Keyed>(v: &[T], probe: &T) -> (found: Option<usize>)
    requires
        ascending(v@),
    ensures
        match found {
            Some(p) => {
                &&& p < v@.len()
                &&& v@[p as int].key() == probe.key()
                &&& bisected(v@, probe.key(), 0, v@.len() as int) == Some(p as int)
            },
            None => {
                &&& forall|i: int| 0 <= i < v@.len() ==> (#[trigger] v@[i]).key() != probe.key()
                &&& bisected(v@, probe.key(), 0, v@.len() as int) is None
            },
        },
{
    let mut lo: usize = 0;
    let mut hi: usize = v.len();
    while lo < hi
        invariant
            lo <= hi <= v@.len(),
            ascending(v@),
            bisected(v@, probe.key(), 0, v@.len() as int) == bisected(
                v@,
                probe.key(),
                lo as int,
                hi as int,
            ),
            forall|i: int| 0 <= i < lo ==> (#[trigger] v@[i]).key() < probe.key(),
            forall|i: int| hi <= i < v@.len() ==> (#[trigger] v@[i]).key() > probe.key(),
        decreases hi - lo,
    {
        let mid: usize = lo + (hi - lo) / 2;
        if !probe.at_most(&v[mid]) {
            lo = mid + 1;
        } else if !v[mid].at_most(probe) {
            hi = mid;
        } else {
            return Some(mid);
        }
    }
    None
}

/// What walking two lists side by side, always past the smaller head, finds in both.
pub open spec fn merge_common<T: Keyed>(a: Seq<T>, b: Seq<T>) -> Seq<T>
    decreases a.len() + b.len(),
{
    if a.len() == 0 || b.len() == 0 {
        Seq::empty()
    } else if a[0].key() < b[0].key() {
        merge_common(a.skip(1), b)
    } else if a[0].key() > b[0].key() {
        merge_common(a, b.skip(1))
    } else {
        seq![a[0]] + merge_common(a.skip(1), b.skip(1))
    }
}

/// On two strictly ascending lists the walk finds exactly the common items, in ascending order.
pub proof fn lemma_merge_common_of_sorted<T: UniquelyKeyed>(a: Seq<T>, b: Seq<T>)
    requires
        strictly_ascending(a),
        strictly_ascending(b),
    ensures
        strictly_ascending(merge_common(a, b)),
        forall|x: T| #[trigger] merge_common(a, b).contains(x) <==> a.contains(x) && b.contains(x),
    decreases a.len() + b.len(),
{
    if a.len() > 0 && b.len() > 0 {
        let r = merge_common(a, b);
        assert forall|x: T| #[trigger] a.contains(x) <==> x == a[0] || a.skip(1).contains(x) by {
            lemma_head_or_tail(a, x);
        }
        assert forall|x: T| #[trigger] b.contains(x) <==> x == b[0] || b.skip(1).contains(x) by {
            lemma_head_or_tail(b, x);
        }
        assert(strictly_ascending(a.skip(1)));
        assert(strictly_ascending(b.skip(1)));
        if a[0].key() < b[0].key() {
            lemma_merge_common_of_sorted(a.skip(1), b);
            assert(!b.contains(a[0])) by {
                if b.contains(a[0]) {
                    let i = choose|i: int| 0 <= i < b.len() && b[i] == a[0];
                    assert(i == 0 || b[0].key() < b[i].key());
                }
            }
        } else if a[0].key() > b[0].key() {
            lemma_merge_common_of_sorted(a, b.skip(1));
            assert(!a.contains(b[0])) by {
                if a.contains(b[0]) {
                    let i = choose|i: int| 0 <= i < a.len() && a[i] == b[0];
                    assert(i == 0 || a[0].key() < a[i].key());
                }
            }
        } else {
            T::key_determines(a[0], b[0]);
            let rest = merge_common(a.skip(1), b.skip(1));
            lemma_merge_common_of_sorted(a.skip(1), b.skip(1));
            assert forall|x: T| #[trigger] r.contains(x) <==> x == r[0] || rest.contains(x) by {
                lemma_head_or_tail(r, x);
                assert(r.skip(1) =~= rest);
            }
            assert forall|i: int, j: int| 0 <= i < j < r.len() implies (#[trigger] r[i]).key() < (
            #[trigger] r[j]).key() by {
                if i > 0 {
                    assert(rest[i - 1].key() < rest[j - 1].key());
                } else {
                    assert(rest.contains(rest[j - 1]));
                    assert(a.skip(1).contains(r[j]));
                    let k = choose|k: int| 0 <= k < a.skip(1).len() && a.skip(1)[k] == r[j];
                    assert(a[0].key() < a[k + 1].key());
                }
            }
        }
    }
}

/// On ascending lists, which may hold an item more than once, the walk finds an item as often as
/// both lists hold it, and what it finds ascends.
pub proof fn law_common_items_are_found_as_often_as_both_hold_them<T: UniquelyKeyed>(
    a: Seq<T>,
    b: Seq<T>,
    x: T,
)
    requires
        ascending(a),
        ascending(b),
    ensures
        merge_common(a, b).to_multiset().count(x) <= a.to_multiset().count(x),
        merge_common(a, b).to_multiset().count(x) <= b.to_multiset().count(x),
        merge_common(a, b).to_multiset().count(x) == a.to_multiset().count(x) || merge_common(
            a,
            b,
        ).to_multiset().count(x) == b.to_multiset().count(x),
        ascending(merge_common(a, b)),
        forall|i: int|
            0 <= i < merge_common(a, b).len() ==> a.len() > 0 && a[0].key() <= (
            #[trigger] merge_common(a, b)[i]).key(),
    decreases a.len() + b.len(),
{
    broadcast use vstd::seq_lib::group_to_multiset_ensures;
    if a.len() > 0 && b.len() > 0 {
        let r = merge_common(a, b);
        let (p, q) = (a.skip(1), b.skip(1));
        lemma_count_of_head(a, x);
        lemma_count_of_head(b, x);
        assert(ascending(p) && ascending(q));
        if a[0].key() < b[0].key() {
            law_common_items_are_found_as_often_as_both_hold_them(p, b, x);
            assert(x == a[0] ==> !b.contains(x));
            assert forall|i: int| 0 <= i < r.len() implies a[0].key() <= (#[trigger] r[i]).key() by {
                assert(a[0].key() <= p[0].key());
            }
        } else if a[0].key() > b[0].key() {
            law_common_items_are_found_as_often_as_both_hold_them(a, q, x);
            assert(x == b[0] ==> !a.contains(x));
        } else {
            let rest = merge_common(p, q);
            T::key_determines(a[0], b[0]);
            law_common_items_are_found_as_often_as_both_hold_them(p, q, x);
            lemma_count_of_head(r, x);
            assert(r.skip(1) =~= rest);
            assert forall|i: int| 0 <= i < r.len() implies a[0].key() <= (#[trigger] r[i]).key() by {
                if i > 0 {
                    assert(r[i] == rest[i - 1]);
                    assert(a[0].key() <= p[0].key());
                }
            }
            assert forall|i: int, j: int| 0 <= i <= j < r.len() implies (#[trigger] r[i]).key() <= (
            #[trigger] r[j]).key() by {
                if i > 0 {
                    assert(rest[i - 1].key() <= rest[j - 1].key());
                }
            }
        }
    }
}

proof fn lemma_count_of_head<T>(s: Seq<T>, x: T)
    requires
        s.len() > 0,
    ensures
        s.to_multiset().count(x) == s.skip(1).to_multiset().count(x) + (if s[0] == x {
            1nat
        } else {
            0nat
        }),
{
    broadcast use vstd::seq_lib::group_to_multiset_ensures;
    assert(s.remove(0) =~= s.skip(1));
    assert(s.contains(s[0]));
}

proof fn lemma_head_or_tail<T>(s: Seq<T>, x: T)
    requires
        s.len() > 0,
    ensures
        s.contains(x) <==> x == s[0] || s.skip(1).contains(x),
{
    if s.contains(x) {
        let i = choose|i: int| 0 <= i < s.len() && s[i] == x;
        if i > 0 {
            assert(s.skip(1)[i - 1] == x);
        }
    }
    if s.skip(1).contains(x) {
        let i = choose|i: int| 0 <= i < s.skip(1).len() && s.skip(1)[i] == x;
        assert(s[i + 1] == x);
    }
}

/// Walks two lists side by side and keeps what they have in common.
pub fn intersect<T: UniquelyKeyed>(a: &[T], b: &[T]) -> (out: Vec<T>)
    ensures
        out@ == merge_common(a@, b@),
{
    let mut out: Vec<T> = Vec::with_capacity(if a.len() < b.len() { a.len() } else { b.len() });
    let mut i: usize = 0;
    let mut j: usize = 0;
    assert(a@.skip(0) =~= a@);
    assert(b@.skip(0) =~= b@);
    while i < a.len() && j < b.len()
        invariant
            i <= a@.len(),
            j <= b@.len(),
            out@ + merge_common(a@.skip(i as int), b@.skip(j as int)) =~= merge_common(a@, b@),
        decreases a.len() - i + b.len() - j,
    {
        assert(a@.skip(i as int).skip(1) =~= a@.skip(i + 1));
        assert(b@.skip(j as int).skip(1) =~= b@.skip(j + 1));
        if !b[j].at_most(&a[i]) {
            i += 1;
        } else if !a[i].at_most(&b[j]) {
            j += 1;
        } else {
            let ghost before = out@;
            out.push(a[i]);
            assert(out@ =~= before + seq![a@[i as int]]);
            i += 1;
            j += 1;
        }
    }
    out
}

} // verus!
