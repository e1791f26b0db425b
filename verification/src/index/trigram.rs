//! The trigram index: which entries hold which three-byte windows in their names.

use crate::index::posting_map::{
    list_at, lists_keys, new_posting_map, posting_keys, posting_list, posting_list_mut,
    posting_lists,
};
use crate::index::store::{all_below, are_below, do_ascend};
use crate::sorting::{
    intersect, lemma_map_keeps_items, lemma_merge_common_of_sorted, lemma_push_contains,
    lemma_same_items, merge_common, sort, sort_dedup, sorted_set_of, strictly_ascending, Keyed,
};
use ahash::AHashMap;
use vstd::prelude::*;

verus! {

/// The number that stands for three consecutive bytes.
pub open spec fn trigram_code(a: u8, b: u8, c: u8) -> u32 {
    (a + 0x100 * b + 0x10000 * c) as u32
}

/// The trigrams of a byte string, one for each window of three bytes.
pub open spec fn trigrams(bytes: Seq<u8>) -> Seq<u32> {
    Seq::new(
        if bytes.len() < 3 {
            0
        } else {
            (bytes.len() - 2) as nat
        },
        |i: int| trigram_code(bytes[i], bytes[i + 1], bytes[i + 2]),
    )
}

/// The three bytes stand side by side in the byte string.
pub open spec fn has_window(bytes: Seq<u8>, a: u8, b: u8, c: u8) -> bool {
    exists|i: int|
        0 <= i && i + 2 < bytes.len() && #[trigger] bytes[i] == a && bytes[i + 1] == b && bytes[i
            + 2] == c
}

/// A number stands for three bytes in their order and for no other three.
pub proof fn law_trigram_tells_its_bytes(a: u8, b: u8, c: u8, x: u8, y: u8, z: u8)
    ensures
        trigram_code(a, b, c) == trigram_code(x, y, z) ==> a == x && b == y && c == z,
        trigram_code(a, b, c) < 0x100_0000,
{
}

/// The trigrams of a byte string are those of its windows of three bytes, one for each place where
/// a window begins.
pub proof fn law_trigrams_are_those_of_the_windows(bytes: Seq<u8>, a: u8, b: u8, c: u8)
    ensures
        trigrams(bytes).contains(trigram_code(a, b, c)) <==> has_window(bytes, a, b, c),
        bytes.len() >= 2 ==> trigrams(bytes).len() == bytes.len() - 2,
        bytes.len() < 2 ==> trigrams(bytes).len() == 0,
{
    if trigrams(bytes).contains(trigram_code(a, b, c)) {
        let i = choose|i: int|
            0 <= i < trigrams(bytes).len() && trigrams(bytes)[i] == trigram_code(a, b, c);
        law_trigram_tells_its_bytes(a, b, c, bytes[i], bytes[i + 1], bytes[i + 2]);
        assert(bytes[i] == a);
    }
    if has_window(bytes, a, b, c) {
        let i = choose|i: int|
            0 <= i && i + 2 < bytes.len() && #[trigger] bytes[i] == a && bytes[i + 1] == b
                && bytes[i + 2] == c;
        assert(trigrams(bytes)[i] == trigram_code(a, b, c));
    }
}

/// Posting a name puts its id under the windows of the name and changes nothing else.
pub proof fn law_name_is_posted_under_its_windows(
    lists: Map<u32, Seq<u32>>,
    id: u32,
    name: Seq<u8>,
    a: u8,
    b: u8,
    c: u8,
    x: u32,
)
    ensures
        list_at(posted(lists, id, runs(trigrams(name))), trigram_code(a, b, c)).contains(x) <==> (
        list_at(lists, trigram_code(a, b, c)).contains(x) || (x == id && has_window(
            name,
            a,
            b,
            c,
        ))),
{
    let t = trigram_code(a, b, c);
    lemma_runs_keep_values(trigrams(name));
    lemma_posted_members(lists, id, runs(trigrams(name)));
    law_trigrams_are_those_of_the_windows(name, a, b, c);
    assert(runs(trigrams(name)).contains(t) <==> trigrams(name).contains(t));
    assert(list_at(posted(lists, id, runs(trigrams(name))), t).contains(x) <==> list_at(
        lists,
        t,
    ).contains(x) || (x == id && runs(trigrams(name)).contains(t)));
}

/// The sequence with each run of equal neighbours cut down to one.
pub open spec fn runs(s: Seq<u32>) -> Seq<u32>
    decreases s.len(),
{
    if s.len() == 0 {
        Seq::empty()
    } else if s.len() >= 2 && s[s.len() - 1] == s[s.len() - 2] {
        runs(s.drop_last())
    } else {
        runs(s.drop_last()).push(s.last())
    }
}

/// Only neighbours are taken together: a value behind an equal one adds nothing, and a value behind
/// another is kept.
pub proof fn law_neighbours_are_taken_together(s: Seq<u32>, x: u32, y: u32)
    ensures
        x == y ==> runs(s.push(x).push(y)) == runs(s.push(x)),
        x != y ==> runs(s.push(x).push(y)) == runs(s.push(x)).push(y),
        runs(seq![x]) == seq![x],
{
    assert(s.push(x).push(y).drop_last() =~= s.push(x));
    assert(seq![x].drop_last() =~= Seq::<u32>::empty());
    assert(runs(Seq::<u32>::empty()) =~= Seq::<u32>::empty());
    assert(runs(seq![x]) =~= seq![x]);
}

/// The lists after `id` was appended under each key of `keys` in turn.
pub open spec fn posted(
    lists: Map<u32, Seq<u32>>,
    id: u32,
    keys: Seq<u32>,
) -> Map<u32, Seq<u32>>
    decreases keys.len(),
{
    if keys.len() == 0 {
        lists
    } else {
        let rest = posted(lists, id, keys.drop_last());
        rest.insert(keys.last(), list_at(rest, keys.last()).push(id))
    }
}

/// Cutting runs down to one drops no value.
pub proof fn lemma_runs_keep_values(s: Seq<u32>)
    ensures
        forall|t: u32| #[trigger] runs(s).contains(t) <==> s.contains(t),
        s.len() > 0 ==> runs(s).len() > 0,
    decreases s.len(),
{
    if s.len() > 0 {
        let rest = s.drop_last();
        lemma_runs_keep_values(rest);
        assert forall|t: u32| #[trigger] runs(s).contains(t) <==> s.contains(t) by {
            assert(s =~= rest.push(s.last()));
            lemma_push_contains(rest, s.last(), t);
            if s.len() >= 2 && s[s.len() - 1] == s[s.len() - 2] {
                assert(rest[rest.len() - 1] == s.last());
            } else {
                lemma_push_contains(runs(rest), s.last(), t);
            }
        }
    }
}

/// Posting `id` under some keys adds `id` to the lists of those keys and changes no other list.
pub proof fn lemma_posted_members(lists: Map<u32, Seq<u32>>, id: u32, keys: Seq<u32>)
    ensures
        forall|t: u32, x: u32|
            #![trigger list_at(posted(lists, id, keys), t).contains(x)]
            list_at(posted(lists, id, keys), t).contains(x) <==> list_at(lists, t).contains(x) || (x
                == id && keys.contains(t)),
        forall|t: u32| #[trigger]
            posted(lists, id, keys).contains_key(t) <==> lists.contains_key(t) || keys.contains(t),
    decreases keys.len(),
{
    if keys.len() > 0 {
        let before = keys.drop_last();
        let rest = posted(lists, id, before);
        let all = posted(lists, id, keys);
        lemma_posted_members(lists, id, before);
        assert(keys =~= before.push(keys.last()));
        assert forall|t: u32| #[trigger] keys.contains(t) <==> before.contains(t) || t
            == keys.last() by {
            lemma_push_contains(before, keys.last(), t);
        }
        assert forall|t: u32, x: u32|
            #![trigger list_at(all, t).contains(x)]
            list_at(all, t).contains(x) <==> list_at(lists, t).contains(x) || (x == id
                && keys.contains(t)) by {
            assert(list_at(rest, t).contains(x) <==> list_at(lists, t).contains(x) || (x == id
                && before.contains(t)));
            if t == keys.last() {
                lemma_push_contains(list_at(rest, t), id, x);
            } else {
                assert(list_at(all, t) == list_at(rest, t));
            }
        }
    } else {
        assert forall|t: u32| !keys.contains(t) by {
        }
    }
}

/// Intersects the lists from the first to the last.
pub open spec fn common_of_all(lists: Seq<Seq<u32>>) -> Seq<u32>
    decreases lists.len(),
{
    if lists.len() == 0 {
        Seq::empty()
    } else if lists.len() == 1 {
        lists[0]
    } else {
        merge_common(common_of_all(lists.drop_last()), lists.last())
    }
}

/// Once nothing is left in common, nothing comes back.
proof fn lemma_empty_stays_empty(lists: Seq<Seq<u32>>, n: int)
    requires
        1 <= n <= lists.len(),
    ensures
        common_of_all(lists.take(n)).len() == 0 ==> common_of_all(
            lists.take(lists.len() as int),
        ).len() == 0,
    decreases lists.len() - n,
{
    if n < lists.len() {
        assert(lists.take(n + 1).drop_last() =~= lists.take(n));
        lemma_empty_stays_empty(lists, n + 1);
    }
}

/// On strictly ascending lists this is what all of them hold, in ascending order.
pub proof fn lemma_common_of_sorted(lists: Seq<Seq<u32>>)
    requires
        lists.len() > 0,
        forall|i: int| 0 <= i < lists.len() ==> strictly_ascending(#[trigger] lists[i]),
    ensures
        strictly_ascending(common_of_all(lists)),
        forall|x: u32| #[trigger]
            common_of_all(lists).contains(x) <==> forall|i: int|
                0 <= i < lists.len() ==> (#[trigger] lists[i]).contains(x),
    decreases lists.len(),
{
    if lists.len() > 1 {
        let rest = lists.drop_last();
        assert(forall|i: int| 0 <= i < rest.len() ==> rest[i] == lists[i]);
        lemma_common_of_sorted(rest);
        lemma_merge_common_of_sorted(common_of_all(rest), lists.last());
        assert forall|x: u32| #[trigger] common_of_all(lists).contains(x) <==> forall|i: int|
            0 <= i < lists.len() ==> (#[trigger] lists[i]).contains(x) by {
            if common_of_all(lists).contains(x) {
                assert forall|i: int| 0 <= i < lists.len() implies (#[trigger] lists[i]).contains(
                    x,
                ) by {
                    if i < rest.len() {
                        assert(rest[i].contains(x));
                    }
                }
            }
            if forall|i: int| 0 <= i < lists.len() ==> (#[trigger] lists[i]).contains(x) {
                assert forall|i: int| 0 <= i < rest.len() implies (#[trigger] rest[i]).contains(
                    x,
                ) by {
                    assert(lists[i].contains(x));
                }
                assert(lists[lists.len() - 1].contains(x));
            }
        }
    }
}

/// The lists under some keys, key by key.
pub open spec fn lists_under(lists: Map<u32, Seq<u32>>, keys: Seq<u32>) -> Seq<Seq<u32>> {
    Seq::new(keys.len(), |i: int| lists[keys[i]])
}

/// `out` is what an index with these lists answers to a query with these trigrams: nothing where a
/// trigram has no list, else the lists intersected one after the other, shorter ones first.
pub open spec fn answers(lists: Map<u32, Seq<u32>>, keys: Seq<u32>, out: Seq<u32>) -> bool {
    if forall|i: int| 0 <= i < keys.len() ==> lists.contains_key(#[trigger] keys[i]) {
        exists|order: Seq<Seq<u32>>|
            {
                &&& order.to_multiset() == lists_under(lists, keys).to_multiset()
                &&& forall|i: int, j: int|
                    0 <= i <= j < order.len() ==> (#[trigger] order[i]).len() <= (
                    #[trigger] order[j]).len()
                &&& out == #[trigger] common_of_all(order)
            }
    } else {
        out == Seq::<u32>::empty()
    }
}

/// The id stands in the list of every trigram of the query.
pub open spec fn posted_under_all(lists: Map<u32, Seq<u32>>, query: Seq<u8>, id: u32) -> bool {
    forall|i: int|
        0 <= i < trigrams(query).len() ==> list_at(lists, #[trigger] trigrams(query)[i]).contains(
            id,
        )
}

/// On finalized lists every answer is exactly the ids that stand under all trigrams of the query.
pub proof fn lemma_answer_of_finalized(lists: Map<u32, Seq<u32>>, query: Seq<u8>, out: Seq<u32>)
    requires
        query.len() >= 3,
        forall|t: u32| #[trigger] lists.contains_key(t) ==> strictly_ascending(lists[t]),
        answers(lists, runs(trigrams(query)), out),
    ensures
        strictly_ascending(out),
        forall|id: u32| #[trigger] out.contains(id) <==> posted_under_all(lists, query, id),
{
    let all = trigrams(query);
    let keys = runs(all);
    lemma_runs_keep_values(all);
    if forall|i: int| 0 <= i < keys.len() ==> lists.contains_key(#[trigger] keys[i]) {
        let wanted = lists_under(lists, keys);
        let order = choose|order: Seq<Seq<u32>>|
            {
                &&& order.to_multiset() == wanted.to_multiset()
                &&& forall|i: int, j: int|
                    0 <= i <= j < order.len() ==> (#[trigger] order[i]).len() <= (
                    #[trigger] order[j]).len()
                &&& out == #[trigger] common_of_all(order)
            };
        lemma_same_items(order, wanted);
        assert forall|i: int| 0 <= i < order.len() implies strictly_ascending(#[trigger] order[i]) by {
            assert(order.contains(order[i]));
            let k = choose|k: int| 0 <= k < wanted.len() && wanted[k] == order[i];
            assert(lists.contains_key(keys[k]));
        }
        lemma_common_of_sorted(order);
        assert forall|id: u32| #[trigger] out.contains(id) <==> posted_under_all(
            lists,
            query,
            id,
        ) by {
            if out.contains(id) {
                assert forall|i: int| 0 <= i < all.len() implies list_at(
                    lists,
                    #[trigger] all[i],
                ).contains(id) by {
                    assert(all.contains(all[i]));
                    assert(keys.contains(all[i]));
                    let k = choose|k: int| 0 <= k < keys.len() && keys[k] == all[i];
                    assert(lists.contains_key(keys[k]));
                    assert(wanted[k] == lists[keys[k]]);
                    assert(wanted.contains(wanted[k]));
                    assert(order.contains(wanted[k]));
                    let m = choose|m: int| 0 <= m < order.len() && order[m] == wanted[k];
                    assert(order[m].contains(id));
                }
            }
            if posted_under_all(lists, query, id) {
                assert forall|i: int| 0 <= i < order.len() implies (#[trigger] order[i]).contains(
                    id,
                ) by {
                    assert(order.contains(order[i]));
                    let k = choose|k: int| 0 <= k < wanted.len() && wanted[k] == order[i];
                    assert(keys.contains(keys[k]));
                    let n = choose|n: int| 0 <= n < all.len() && all[n] == keys[k];
                    assert(list_at(lists, all[n]).contains(id));
                    assert(lists.contains_key(keys[k]));
                }
            }
        }
    } else {
        let k = choose|k: int| 0 <= k < keys.len() && !lists.contains_key(#[trigger] keys[k]);
        assert(keys.contains(keys[k]));
        let n = choose|n: int| 0 <= n < all.len() && all[n] == keys[k];
        assert forall|id: u32| !posted_under_all(lists, query, id) by {
            assert(!list_at(lists, all[n]).contains(id));
        }
    }
}

/// The number that stands for the first three bytes of `bytes`.
pub fn trigram_hash(bytes: &[u8]) -> (code: u32)
    requires
        bytes@.len() >= 3,
    ensures
        code == trigram_code(bytes@[0], bytes@[1], bytes@[2]),
{
    let a = bytes[0];
    let b = bytes[1];
    let c = bytes[2];
    proof {
        assert((a as u32) | ((b as u32) << 8) | ((c as u32) << 16) == a + 0x100 * b + 0x10000 * c)
            by (bit_vector);
    }
    (a as u32) | ((b as u32) << 8) | ((c as u32) << 16)
}

/// What two ascending lists of ids have in common.
pub fn intersect_sorted(a: &[u32], b: &[u32]) -> (common: Vec<u32>)
    ensures
        common@ == merge_common(a@, b@),
        strictly_ascending(a@) && strictly_ascending(b@) ==> {
            &&& strictly_ascending(common@)
            &&& forall|x: u32| #[trigger] common@.contains(x) <==> a@.contains(x) && b@.contains(x)
        },
{
    proof {
        if strictly_ascending(a@) && strictly_ascending(b@) {
            lemma_merge_common_of_sorted(a@, b@);
        }
    }
    intersect(a, b)
}

/// A list of ids, ordered by its length.
#[derive(Clone, Copy)]
struct IdList<'a> {
    ids: &'a [u32],
}

impl<'a> Keyed for IdList<'a> {
    closed spec fn key(self) -> int {
        self.ids@.len() as int
    }

    fn at_most(&self, other: &Self) -> (b: bool) {
        self.ids.len() <= other.ids.len()
    }
}

/// For each trigram, the ids of the entries whose name holds it.
pub struct TrigramIndex {
    posting: AHashMap<u32, Vec<u32>>,
}

impl View for TrigramIndex {
    type V = Map<u32, Seq<u32>>;

    closed spec fn view(&self) -> Map<u32, Seq<u32>> {
        posting_lists(self.posting)
    }
}

impl TrigramIndex {
    /// Every list is strictly ascending, as `query` expects.
    pub open spec fn finalized(&self) -> bool {
        forall|t: u32| #[trigger] self@.contains_key(t) ==> strictly_ascending(self@[t])
    }

    pub fn new() -> (index: Self)
        ensures
            index@ == Map::<u32, Seq<u32>>::empty(),
    {
        TrigramIndex { posting: new_posting_map(32768) }
    }

    /// Posts `id` under the trigrams of `name_lower`. A trigram that follows itself is posted once
    /// for the run.
    pub fn insert(&mut self, id: u32, name_lower: &[u8])
        ensures
            final(self)@ == posted(old(self)@, id, runs(trigrams(name_lower@))),
    {
        if name_lower.len() < 3 {
            assert(trigrams(name_lower@).len() == 0);
            return;
        }
        let ghost all = trigrams(name_lower@);
        let mut prev: u32 = u32::MAX;
        let mut i: usize = 0;
        while i < name_lower.len() - 2
            invariant
                name_lower@.len() >= 3,
                i <= name_lower@.len() - 2,
                all == trigrams(name_lower@),
                i == 0 ==> prev == u32::MAX,
                i > 0 ==> prev == all[i - 1],
                self@ == posted(old(self)@, id, runs(all.take(i as int))),
            decreases name_lower@.len() - i,
        {
            let tri: u32 = trigram_hash(vstd::slice::slice_subrange(name_lower, i, i + 3));
            let ghost done = all.take(i as int);
            proof {
                assert(all.take(i + 1).drop_last() =~= done);
                assert(tri == all[i as int]);
            }
            if tri != prev {
                let list = posting_list_mut(&mut self.posting, tri);
                list.push(id);
                proof {
                    assert(runs(all.take(i + 1)) =~= runs(done).push(tri));
                    assert(runs(all.take(i + 1)).drop_last() =~= runs(done));
                }
                prev = tri;
            } else {
                assert(runs(all.take(i + 1)) == runs(done));
            }
            i += 1;
        }
        assert(all.take(i as int) =~= all);
    }

    /// Sorts every list and leaves one of each id.
    pub fn finalize(&mut self)
        ensures
            final(self).finalized(),
            final(self)@.dom() == old(self)@.dom(),
            forall|t: u32| #[trigger]
                final(self)@.contains_key(t) ==> sorted_set_of(final(self)@[t], old(self)@[t]),
    {
        let keys = posting_keys(&self.posting);
        let mut i: usize = 0;
        while i < keys.len()
            invariant
                i <= keys@.len(),
                lists_keys(keys@, old(self)@),
                self@.dom() == old(self)@.dom(),
                forall|j: int|
                    0 <= j < i ==> sorted_set_of(self@[#[trigger] keys@[j]], old(self)@[keys@[j]]),
                forall|j: int| i <= j < keys@.len() ==> self@[#[trigger] keys@[j]] == old(self)@[keys@[j]],
            decreases keys@.len() - i,
        {
            let ghost before = self@;
            let key: u32 = keys[i];
            assert(keys@.contains(keys@[i as int]));
            let list = posting_list_mut(&mut self.posting, key);
            sort_dedup(list);
            proof {
                assert(self@.dom() =~= before.dom());
            }
            i += 1;
        }
        assert forall|t: u32| #[trigger] self@.contains_key(t) implies sorted_set_of(
            self@[t],
            old(self)@[t],
        ) by {
            assert(keys@.contains(t));
        }
    }

    /// Whether every list is strictly ascending and holds ids below `n` only.
    pub(crate) fn is_sound(&self, n: usize) -> (b: bool)
        ensures
            b == (self.finalized() && forall|t: u32, id: u32| #[trigger]
                list_at(self@, t).contains(id) ==> id < n),
    {
        let keys = posting_keys(&self.posting);
        let mut i: usize = 0;
        while i < keys.len()
            invariant
                i <= keys@.len(),
                lists_keys(keys@, self@),
                forall|j: int|
                    0 <= j < i ==> strictly_ascending(self@[#[trigger] keys@[j]]) && all_below(
                        self@[keys@[j]],
                        n as int,
                    ),
            decreases keys@.len() - i,
        {
            assert(keys@.contains(keys@[i as int]));
            if let Some(ids) = posting_list(&self.posting, keys[i]) {
                if !do_ascend(ids.as_slice()) || !are_below(ids.as_slice(), n) {
                    proof {
                        let t = keys@[i as int];
                        assert(self@.contains_key(t));
                        assert(list_at(self@, t) == ids@);
                        if self.finalized() {
                            let id = choose|id: u32| #[trigger] ids@.contains(id) && id >= n;
                            assert(list_at(self@, t).contains(id));
                        }
                    }
                    return false;
                }
            }
            i += 1;
        }
        assert forall|t: u32| #[trigger] self@.contains_key(t) implies strictly_ascending(self@[t])
            && all_below(self@[t], n as int) by {
            assert(keys@.contains(t));
        }
        assert forall|t: u32, id: u32| #[trigger] list_at(self@, t).contains(id) implies id < n by {
            assert(self@.contains_key(t));
        }
        true
    }

    /// Gives up the lists.
    pub fn take_posting(self) -> (posting: AHashMap<u32, Vec<u32>>)
        ensures
            posting_lists(posting) == self@,
    {
        self.posting
    }

    /// Appends `ids` to the list under `key`.
    pub fn merge_posting(&mut self, key: u32, ids: Vec<u32>)
        ensures
            final(self)@ == old(self)@.insert(key, list_at(old(self)@, key) + ids@),
    {
        let mut ids = ids;
        let list = posting_list_mut(&mut self.posting, key);
        list.append(&mut ids);
    }

    /// The ids that stand under every trigram of `query_lower`, in ascending order. Gives nothing
    /// to go by where the query is too short to have a trigram.
    pub fn query(&self, query_lower: &[u8]) -> (ids: Option<Vec<u32>>)
        ensures
            match ids {
                Some(ids) => {
                    &&& query_lower@.len() >= 3
                    &&& answers(self@, runs(trigrams(query_lower@)), ids@)
                    &&& self.finalized() ==> strictly_ascending(ids@)
                    &&& self.finalized() ==> forall|id: u32| #[trigger]
                        ids@.contains(id) <==> posted_under_all(self@, query_lower@, id)
                },
                None => query_lower@.len() < 3,
            },
    {
        if query_lower.len() < 3 {
            return None;
        }
        let ghost all = trigrams(query_lower@);
        let mut keys: Vec<u32> = Vec::with_capacity(query_lower.len() - 2);
        let mut prev: u32 = u32::MAX;
        let mut i: usize = 0;
        while i < query_lower.len() - 2
            invariant
                query_lower@.len() >= 3,
                i <= query_lower@.len() - 2,
                all == trigrams(query_lower@),
                i == 0 ==> prev == u32::MAX,
                i > 0 ==> prev == all[i - 1],
                keys@ == runs(all.take(i as int)),
            decreases query_lower@.len() - i,
        {
            let tri: u32 = trigram_hash(vstd::slice::slice_subrange(query_lower, i, i + 3));
            assert(all.take(i + 1).drop_last() =~= all.take(i as int));
            assert(tri == all[i as int]);
            if tri != prev {
                keys.push(tri);
                prev = tri;
            }
            i += 1;
        }
        assert(all.take(i as int) =~= all);
        proof {
            lemma_runs_keep_values(all);
        }
        let mut lists: Vec<IdList<'_>> = Vec::with_capacity(keys.len());
        let mut k: usize = 0;
        while k < keys.len()
            invariant
                k <= keys@.len(),
                query_lower@.len() >= 3,
                keys@ == runs(trigrams(query_lower@)),
                lists@.len() == k,
                forall|j: int| 0 <= j < k ==> self@.contains_key(#[trigger] keys@[j]),
                forall|j: int| 0 <= j < k ==> (#[trigger] lists@[j]).ids@ == self@[keys@[j]],
            decreases keys@.len() - k,
        {
            match posting_list(&self.posting, keys[k]) {
                Some(list) => {
                    let ids = list.as_slice();
                    lists.push(IdList { ids });
                },
                None => {
                    let none: Vec<u32> = Vec::new();
                    proof {
                        assert(!self@.contains_key(keys@[k as int]));
                        assert(none@ =~= Seq::<u32>::empty());
                        assert(answers(self@, keys@, none@));
                        if self.finalized() {
                            lemma_answer_of_finalized(self@, query_lower@, none@);
                        }
                    }
                    return Some(none);
                },
            }
            k += 1;
        }
        let ghost unsorted = lists@;
        sort(&mut lists);
        let ghost order = lists@.map_values(|l: IdList<'_>| l.ids@);
        proof {
            lemma_same_items(lists@, unsorted);
            lemma_map_keeps_items(lists@, unsorted, |l: IdList<'_>| l.ids@);
            assert(unsorted.map_values(|l: IdList<'_>| l.ids@) =~= lists_under(
                self@,
                keys@,
            ));
            assert forall|i: int, j: int| 0 <= i <= j < order.len() implies (
            #[trigger] order[i]).len() <= (#[trigger] order[j]).len() by {
                assert(lists@[i].key() <= lists@[j].key());
            }
        }
        let mut result: Vec<u32> = vstd::slice::slice_to_vec(lists[0].ids);
        let mut n: usize = 1;
        assert(order.take(1)[0] == order[0]);
        while n < lists.len() && result.len() > 0
            invariant
                1 <= n <= lists@.len(),
                order == lists@.map_values(|l: IdList<'_>| l.ids@),
                result@ == common_of_all(order.take(n as int)),
            decreases lists@.len() - n,
        {
            result = intersect_sorted(result.as_slice(), lists[n].ids);
            assert(order.take(n + 1).drop_last() =~= order.take(n as int));
            n += 1;
        }
        proof {
            lemma_empty_stays_empty(order, n as int);
            assert(order.take(order.len() as int) =~= order);
            assert(result@ =~= common_of_all(order));
            assert(order.to_multiset() == lists_under(self@, keys@).to_multiset());
            assert(forall|i: int| 0 <= i < keys@.len() ==> self@.contains_key(#[trigger] keys@[i]));
            assert(answers(self@, keys@, result@));
            if self.finalized() {
                lemma_answer_of_finalized(self@, query_lower@, result@);
            }
        }
        Some(result)
    }
}

} // verus!
