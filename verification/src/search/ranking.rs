//! The best of the matches.

use crate::search::engine::SearchEngine;
use crate::sorting::{
    lemma_map_keeps_items, lemma_push_contains, lemma_same_items, sort, Keyed, MaxHeap,
};
use vstd::multiset::Multiset;
use vstd::prelude::*;

verus! {

/// A match with the key by which it is ranked. The one that ranks last comes out of a heap first.
#[derive(Clone, Copy)]
struct ScoredEntry {
    index: usize,
    score: u32,
}

impl Keyed for ScoredEntry {
    closed spec fn key(self) -> int {
        self.index - 0x1_0000_0000_0000_0000 * self.score
    }

    fn at_most(&self, other: &Self) -> (b: bool) {
        other.score < self.score || (other.score == self.score && self.index <= other.index)
    }
}

/// The first match ranks before the second, or is the same: it has a larger key, or the same key
/// and no larger id.
pub open spec fn ranks_before(a: (usize, u32), b: (usize, u32)) -> bool {
    a.1 > b.1 || (a.1 == b.1 && a.0 <= b.0)
}

spec fn at_most(x: (usize, u32), y: ScoredEntry) -> bool {
    ranks_before((y.index, y.score), x)
}

/// The entries as pairs.
spec fn pairs(s: Seq<ScoredEntry>) -> Seq<(usize, u32)> {
    Seq::new(s.len(), |i: int| (s[i].index, s[i].score))
}

proof fn lemma_pairs_keep_items(a: Seq<ScoredEntry>, b: Seq<ScoredEntry>)
    requires
        a.to_multiset() == b.to_multiset(),
    ensures
        pairs(a).to_multiset() == pairs(b).to_multiset(),
{
    let f = |e: ScoredEntry| (e.index, e.score);
    lemma_map_keeps_items(a, b, f);
    assert(pairs(a) =~= a.map_values(f));
    assert(pairs(b) =~= b.map_values(f));
}

/// `top` and `left` together are the ranked matches, and each in `top` ranks before each in `left`.
pub open spec fn keeps_largest(
    ranked: Seq<(usize, u32)>,
    top: Seq<(usize, u32)>,
    left: Multiset<(usize, u32)>,
) -> bool {
    &&& ranked.to_multiset() == top.to_multiset().add(left)
    &&& forall|x: (usize, u32), j: int|
        #![trigger left.count(x), top[j]]
        left.count(x) > 0 && 0 <= j < top.len() ==> ranks_before(top[j], x)
}

/// `top` holds the `k` ranked matches that rank first, or all where there are fewer, in the order
/// of their ranks: larger keys first, and smaller ids first where the keys are equal.
pub open spec fn is_top_k(ranked: Seq<(usize, u32)>, k: int, top: Seq<(usize, u32)>) -> bool {
    &&& top.len() == if ranked.len() < k {
        ranked.len() as int
    } else {
        k
    }
    &&& forall|i: int, j: int|
        0 <= i <= j < top.len() ==> ranks_before(#[trigger] top[i], #[trigger] top[j])
    &&& exists|left: Multiset<(usize, u32)>| #[trigger] keeps_largest(ranked, top, left)
}

/// The best of the ranked matches are among them.
pub(crate) proof fn lemma_top_is_ranked(ranked: Seq<(usize, u32)>, k: int, top: Seq<(usize, u32)>)
    requires
        is_top_k(ranked, k, top),
    ensures
        forall|i: int| 0 <= i < top.len() ==> ranked.contains(#[trigger] top[i]),
{
    broadcast use vstd::seq_lib::group_to_multiset_ensures;
    let left = choose|left: Multiset<(usize, u32)>| #[trigger] keeps_largest(ranked, top, left);
    assert forall|i: int| 0 <= i < top.len() implies ranked.contains(#[trigger] top[i]) by {
        assert(top.contains(top[i]));
        assert(top.to_multiset().count(top[i]) > 0);
        assert(ranked.to_multiset().count(top[i]) > 0);
    }
}

/// A sequence holds of an item what its first part and the rest hold.
proof fn lemma_count_split(s: Seq<(usize, u32)>, n: int, x: (usize, u32))
    requires
        0 <= n <= s.len(),
    ensures
        s.to_multiset().count(x) == s.take(n).to_multiset().count(x) + s.skip(
            n,
        ).to_multiset().count(x),
{
    assert(s =~= s.take(n) + s.skip(n));
    vstd::seq_lib::lemma_multiset_commutative(s.take(n), s.skip(n));
}

/// Of two lists that agree up to `n`, both the best of the same matches, the first does not have a
/// better match there.
proof fn lemma_no_better(
    ranked: Seq<(usize, u32)>,
    k: int,
    a: Seq<(usize, u32)>,
    b: Seq<(usize, u32)>,
    n: int,
)
    requires
        is_top_k(ranked, k, a),
        is_top_k(ranked, k, b),
        0 <= n < a.len(),
        a.take(n) == b.take(n),
        ranks_before(a[n], b[n]),
    ensures
        a[n] == b[n],
{
    broadcast use vstd::seq_lib::group_to_multiset_ensures;
    if a[n] != b[n] {
        let x = a[n];
        let left_a = choose|left: Multiset<(usize, u32)>| #[trigger] keeps_largest(ranked, a, left);
        let left_b = choose|left: Multiset<(usize, u32)>| #[trigger] keeps_largest(ranked, b, left);
        lemma_count_split(a, n, x);
        lemma_count_split(b, n, x);
        assert(a.skip(n)[0] == x);
        assert(a.skip(n).contains(x));
        assert(!b.skip(n).contains(x)) by {
            if b.skip(n).contains(x) {
                let j = choose|j: int| 0 <= j < b.skip(n).len() && b.skip(n)[j] == x;
                assert(ranks_before(b[n], b[n + j]));
            }
        }
        assert(ranked.to_multiset().count(x) == b.to_multiset().count(x) + left_b.count(x));
        assert(ranked.to_multiset().count(x) == a.to_multiset().count(x) + left_a.count(x));
        assert(left_b.count(x) > 0);
        assert(ranks_before(b[n], x));
    }
}

/// There is one list only that holds the best of some ranked matches.
pub proof fn law_best_is_one_list(
    ranked: Seq<(usize, u32)>,
    k: int,
    a: Seq<(usize, u32)>,
    b: Seq<(usize, u32)>,
)
    requires
        is_top_k(ranked, k, a),
        is_top_k(ranked, k, b),
    ensures
        a == b,
{
    lemma_same_up_to(ranked, k, a, b, a.len() as int);
    assert(a.take(a.len() as int) =~= a);
    assert(b.take(a.len() as int) =~= b);
}

proof fn lemma_same_up_to(
    ranked: Seq<(usize, u32)>,
    k: int,
    a: Seq<(usize, u32)>,
    b: Seq<(usize, u32)>,
    n: int,
)
    requires
        is_top_k(ranked, k, a),
        is_top_k(ranked, k, b),
        0 <= n <= a.len(),
    ensures
        a.take(n) == b.take(n),
    decreases n,
{
    if n > 0 {
        lemma_same_up_to(ranked, k, a, b, n - 1);
        if ranks_before(a[n - 1], b[n - 1]) {
            lemma_no_better(ranked, k, a, b, n - 1);
        } else {
            lemma_no_better(ranked, k, b, a, n - 1);
        }
        assert(a.take(n) =~= a.take(n - 1).push(a[n - 1]));
        assert(b.take(n) =~= b.take(n - 1).push(b[n - 1]));
    } else {
        assert(a.take(n) =~= b.take(n));
    }
}

impl SearchEngine {
    /// The `k` matches with the largest keys, in descending order of their keys. Where keys are
    /// equal, smaller ids come first.
    pub fn top_k(scored: Vec<(usize, u32)>, k: usize) -> (top: Vec<(usize, u32)>)
        ensures
            is_top_k(scored@, k as int, top@),
    {
        broadcast use vstd::seq_lib::group_to_multiset_ensures;
        let n: usize = scored.len();
        let mut kept: Vec<ScoredEntry> = Vec::new();
        let ghost mut left: Multiset<(usize, u32)> = Multiset::empty();
        if n <= k {
            let mut i: usize = 0;
            while i < n
                invariant
                    i <= n == scored@.len(),
                    pairs(kept@) == scored@.take(i as int),
                decreases n - i,
            {
                let ghost before = kept@;
                kept.push(ScoredEntry { index: scored[i].0, score: scored[i].1 });
                assert(pairs(kept@) =~= pairs(before).push(scored@[i as int]));
                assert(scored@.take(i + 1) =~= scored@.take(i as int).push(scored@[i as int]));
                i += 1;
            }
            assert(scored@.take(i as int) =~= scored@);
            assert(scored@.to_multiset() =~= pairs(kept@).to_multiset().add(left));
        } else {
            let mut heap: MaxHeap<ScoredEntry> = MaxHeap::with_capacity(k + 1);
            let mut i: usize = 0;
            assert(pairs(heap@) =~= scored@.take(0));
            assert(scored@.take(0).to_multiset() =~= pairs(heap@).to_multiset().add(left));
            while i < n
                invariant
                    i <= n == scored@.len(),
                    k < n,
                    heap.well_formed(),
                    heap@.len() == if i < k {
                        i as int
                    } else {
                        k as int
                    },
                    scored@.take(i as int).to_multiset() == pairs(heap@).to_multiset().add(left),
                    forall|x: (usize, u32), y: ScoredEntry|
                        left.count(x) > 0 && #[trigger] heap@.contains(y) ==> #[trigger] at_most(
                            x,
                            y,
                        ),
                    i <= k ==> left == Multiset::<(usize, u32)>::empty(),
                decreases n - i,
            {
                broadcast use vstd::seq_lib::group_to_multiset_ensures;
                let ghost before = heap@;
                let ghost left_before = left;
                let item = ScoredEntry { index: scored[i].0, score: scored[i].1 };
                let ghost pair = scored@[i as int];
                heap.push(item);
                let ghost pushed = heap@;
                proof {
                    assert(scored@.take(i + 1) =~= scored@.take(i as int).push(pair));
                    lemma_pairs_keep_items(pushed, before.push(item));
                    assert(pairs(before.push(item)) =~= pairs(before).push(pair));
                    lemma_same_items(pushed, before.push(item));
                }
                if heap.len() > k {
                    let out = heap.pop();
                    proof {
                        let x = out->Some_0;
                        left = left.insert((x.index, x.score));
                        lemma_pairs_keep_items(pushed, heap@.push(x));
                        assert(pairs(heap@.push(x)) =~= pairs(heap@).push((x.index, x.score)));
                        lemma_same_items(pushed, heap@.push(x));
                        assert forall|a: (usize, u32), y: ScoredEntry|
                            left.count(a) > 0 && #[trigger] heap@.contains(
                                y,
                            ) implies #[trigger] at_most(a, y) by {
                            lemma_push_contains(heap@, x, y);
                            assert(pushed.contains(y));
                            assert(y.key() <= x.key());
                            if left_before.count(a) > 0 {
                                if before.contains(x) {
                                    assert(at_most(a, x));
                                } else {
                                    lemma_push_contains(before, item, x);
                                    assert(x == item);
                                    assert(heap@.to_multiset() =~= before.to_multiset()) by {
                                        assert(heap@.to_multiset().insert(x)
                                            == before.to_multiset().insert(x));
                                        assert(heap@.to_multiset() =~= heap@.to_multiset().insert(
                                            x,
                                        ).remove(x));
                                        assert(before.to_multiset()
                                            =~= before.to_multiset().insert(x).remove(x));
                                    }
                                    lemma_same_items(heap@, before);
                                    assert(before.contains(y));
                                    assert(at_most(a, y));
                                }
                            }
                        }
                        assert(pairs(pushed).to_multiset() == pairs(before).to_multiset().insert(
                            pair,
                        ));
                        assert(pairs(pushed).to_multiset() == pairs(heap@).to_multiset().insert(
                            (x.index, x.score),
                        ));
                        assert(scored@.take(i + 1).to_multiset() =~= pairs(
                            pushed,
                        ).to_multiset().add(left_before));
                        assert(scored@.take(i + 1).to_multiset() =~= pairs(
                            heap@,
                        ).to_multiset().add(left));
                    }
                } else {
                    proof {
                        assert(left == Multiset::<(usize, u32)>::empty());
                        assert(scored@.take(i + 1).to_multiset() =~= pairs(
                            heap@,
                        ).to_multiset().add(left));
                    }
                }
                i += 1;
            }
            assert(scored@.take(i as int) =~= scored@);
            kept = heap.into_vec();
        }
        let ghost unsorted = kept@;
        sort(&mut kept);
        proof {
            lemma_same_items(kept@, unsorted);
            lemma_pairs_keep_items(kept@, unsorted);
        }
        let mut top: Vec<(usize, u32)> = Vec::with_capacity(kept.len());
        let mut i: usize = 0;
        while i < kept.len()
            invariant
                i <= kept@.len(),
                top@ == pairs(kept@).take(i as int),
            decreases kept@.len() - i,
        {
            top.push((kept[i].index, kept[i].score));
            assert(top@ =~= pairs(kept@).take(i + 1));
            i += 1;
        }
        proof {
            assert(pairs(kept@).take(i as int) =~= pairs(kept@));
            assert(scored@.to_multiset() == top@.to_multiset().add(left));
            assert forall|i: int, j: int| 0 <= i <= j < top@.len() implies ranks_before(
                #[trigger] top@[i],
                #[trigger] top@[j],
            ) by {
                assert(kept@[i].key() <= kept@[j].key());
            }
            assert forall|x: (usize, u32), j: int|
                #![trigger left.count(x), top@[j]]
                left.count(x) > 0 && 0 <= j < top@.len() implies ranks_before(top@[j], x) by {
                assert(kept@.contains(kept@[j]));
                assert(at_most(x, kept@[j]));
            }
            assert(keeps_largest(scored@, top@, left));
        }
        top
    }
}

} // verus!
