//! What becomes of the entries of a file table, told on the entries and their references.

use crate::index::builder::{
    finished, items_fit, law_index_of_listed, lemma_with_all_sizes, Gathered, Listed,
};
use crate::index::entry::{law_marks_are_the_lowest_bits, lemma_flags_read_back};
use crate::index::store::{
    is_directory, is_hidden_entry, lower_name_at, name_at, path_at, Index,
};
use crate::mft::scanner::name_in_arena;
use crate::mft::types::{MftRawEntry, FILE_REF_MASK, ROOT_FILE_REF};
use crate::platform::paths::{
    dirs_in, drive_root_text, files_in, law_listed_is_reachable, law_nothing_is_listed_twice,
    law_reachable_is_listed, lists_scan, Forest,
};
use crate::platform::tree::{lemma_lying_in, lying_in, parents_of};
use crate::text::lower_name;
use vstd::prelude::*;
use vstd::utf8::encode_utf8;

verus! {

/// The entry lies in the root of the volume: it gives the number of the root or none for its
/// parent, or one that no entry has.
pub open spec fn lies_in_root(entries: Seq<MftRawEntry>, i: int) -> bool {
    ||| entries[i].parent_ref == 5
    ||| entries[i].parent_ref == 0
    ||| forall|p: int|
        0 <= p < entries.len() ==> (#[trigger] entries[p]).file_ref != entries[i].parent_ref
}

/// The entry lies in the other, which is a directory.
pub open spec fn lies_in(entries: Seq<MftRawEntry>, i: int, parent: int) -> bool {
    &&& entries[i].parent_ref != 5
    &&& entries[i].parent_ref != 0
    &&& entries[i].parent_ref == entries[parent].file_ref
    &&& entries[parent].is_dir
}

/// A way down from the root of the volume: the first entry lies in the root, and each further one
/// in the one before it.
pub open spec fn is_way_down(entries: Seq<MftRawEntry>, way: Seq<int>) -> bool {
    &&& way.len() > 0
    &&& forall|k: int| 0 <= k < way.len() ==> 0 <= #[trigger] way[k] < entries.len()
    &&& lies_in_root(entries, way[0])
    &&& forall|k: int| 0 < k < way.len() ==> lies_in(entries, #[trigger] way[k], way[k - 1])
}

/// The name of an entry.
pub open spec fn raw_name(entries: Seq<MftRawEntry>, arena: Seq<u8>, i: int) -> Seq<u8> {
    arena.subrange(entries[i].name_off as int, entries[i].name_off + entries[i].name_len)
}

/// The names on a way down, with a backslash between each two, behind the root of the volume.
pub open spec fn path_along(
    entries: Seq<MftRawEntry>,
    arena: Seq<u8>,
    letter: char,
    way: Seq<int>,
) -> Seq<u8>
    decreases way.len(),
{
    if way.len() <= 1 {
        encode_utf8(seq![letter, ':', '\\']) + raw_name(entries, arena, way[0])
    } else {
        path_along(entries, arena, letter, way.drop_last()) + seq![0x5cu8] + raw_name(
            entries,
            arena,
            way.last(),
        )
    }
}

/// The index holds an entry of the table at this place, under this path: its name, its lower case
/// name, its two marks and its time. The table tells no size.
pub open spec fn holds_raw(
    index: Index,
    id: int,
    entries: Seq<MftRawEntry>,
    arena: Seq<u8>,
    i: int,
    path: Seq<u8>,
) -> bool {
    &&& 0 <= id < index.entries@.len()
    &&& name_at(index, id) == raw_name(entries, arena, i)
    &&& lower_name_at(index, id) == lower_name(raw_name(entries, arena, i))
    &&& path_at(index, id) == path
    &&& is_directory(index, id) == entries[i].is_dir
    &&& is_hidden_entry(index, id) == entries[i].is_hidden
    &&& index.entries@[id].size == 0
    &&& index.entries@[id].modified == entries[i].modified
}

/// The entries of a table fit in an index: all texts within 32-bit offsets, and the lower case names
/// within 16-bit lengths.
pub open spec fn table_fits(
    entries: Seq<MftRawEntry>,
    arena: Seq<u8>,
    gathered: Gathered,
) -> bool {
    &&& gathered.entries.len() <= u32::MAX
    &&& gathered.arena.len() <= u32::MAX
    &&& forall|i: int|
        0 <= i < entries.len() ==> name_in_arena(#[trigger] entries[i], arena) && lower_name(
            raw_name(entries, arena, i),
        ).len() <= 0xffff
}

spec fn forest_of(
    entries: Seq<MftRawEntry>,
    arena: Seq<u8>,
    parents: Seq<Option<usize>>,
) -> Forest {
    Forest { entries, arena, parents }
}

spec fn root_bytes(letter: char) -> Seq<u8> {
    encode_utf8(drive_root_text(letter))
}

/// The listing of a table that fits can be read back.
proof fn lemma_listing_fits(
    entries: Seq<MftRawEntry>,
    arena: Seq<u8>,
    letter: char,
    parents: Seq<Option<usize>>,
    gathered: Gathered,
)
    requires
        entries.len() <= usize::MAX,
        parents_of(entries, parents),
        gathered == Gathered::nothing().with_all(
            forest_of(entries, arena, parents).listing(root_bytes(letter)),
        ),
        table_fits(entries, arena, gathered),
    ensures
        forest_of(entries, arena, parents).well_formed(),
        items_fit(forest_of(entries, arena, parents).listing(root_bytes(letter))),
{
    let f = forest_of(entries, arena, parents);
    let items = f.listing(root_bytes(letter));
    lemma_with_all_sizes(Gathered::nothing(), items);
    law_nothing_is_listed_twice(f, root_bytes(letter));
    assert forall|k: int| 0 <= k < items.len() implies (#[trigger] items[k]).name.len() <= 0xffff
        && items[k].lower.len() <= 0xffff by {
        assert(items.contains(items[k]));
        law_listed_is_reachable(f, root_bytes(letter), items[k]);
        let (i, depth) = choose|i: usize, depth: nat| #[trigger]
            f.reachable(i, depth) && items[k] == f.item(i, f.path_of(i, root_bytes(letter), depth));
        assert(name_in_arena(entries[i as int], arena));
        assert(f.name(i) == raw_name(entries, arena, i as int));
    }
}

/// A listed entry stands in the index.
proof fn lemma_item_is_held(
    f: Forest,
    items: Seq<Listed>,
    index: Index,
    i: usize,
    path: Seq<u8>,
    id: int,
)
    requires
        items_fit(items),
        finished(Gathered::nothing().with_all(items), index),
        0 <= id < items.len(),
        items[id] == f.item(i, path),
    ensures
        holds_raw(index, id, f.entries, f.arena, i as int, path),
{
    law_index_of_listed(items, index);
    assert(index.records().len() == index.entries@.len());
    let r = index.records()[id];
    let e = f.entries[i as int];
    assert(r == items[id].record());
    lemma_flags_read_back(e.is_dir, e.is_hidden);
    law_marks_are_the_lowest_bits(r.flags);
    assert(name_at(index, id) == r.name);
    assert(lower_name_at(index, id) == r.lower);
    assert(path_at(index, id) == r.path);
}

/// Where no two entries have the same reference, a way down is one through the parents.
proof fn lemma_way_is_reachable(
    entries: Seq<MftRawEntry>,
    arena: Seq<u8>,
    letter: char,
    parents: Seq<Option<usize>>,
    way: Seq<int>,
)
    requires
        entries.len() <= usize::MAX,
        forall|i: int, j: int|
            0 <= i < j < entries.len() ==> (#[trigger] entries[i]).file_ref != (
            #[trigger] entries[j]).file_ref,
        parents_of(entries, parents),
        is_way_down(entries, way),
    ensures
        forest_of(entries, arena, parents).reachable(way.last() as usize, (way.len() - 1) as nat),
        forest_of(entries, arena, parents).path_of(
            way.last() as usize,
            root_bytes(letter),
            (way.len() - 1) as nat,
        ) == path_along(entries, arena, letter, way),
    decreases way.len(),
{
    let f = forest_of(entries, arena, parents);
    let last = way[way.len() - 1];
    assert(0 <= last < entries.len());
    assert(f.name(last as usize) == raw_name(entries, arena, last));
    lemma_root_reference();
    if way.len() == 1 {
        assert(parents[last] is None);
    } else {
        let above = way.drop_last();
        let p = way[way.len() - 2];
        assert(above.last() == p);
        assert(0 <= p < entries.len());
        assert(lies_in(entries, last, p));
        assert(parents[last] == Some(p as usize)) by {
            match parents[last] {
                Some(q) => {
                    if q < p {
                        assert(entries[q as int].file_ref != entries[p].file_ref);
                    }
                    if p < q {
                        assert(entries[p].file_ref != entries[q as int].file_ref);
                    }
                },
                None => {
                    assert(entries[p].file_ref == entries[last].parent_ref);
                },
            }
        }
        assert forall|k: int| 0 <= k < above.len() implies 0 <= #[trigger] above[k]
            < entries.len() by {
            assert(above[k] == way[k]);
        }
        assert forall|k: int| 0 < k < above.len() implies lies_in(
            entries,
            #[trigger] above[k],
            above[k - 1],
        ) by {
            assert(above[k] == way[k] && above[k - 1] == way[k - 1]);
        }
        lemma_way_is_reachable(entries, arena, letter, parents, above);
        assert(f.path_of(last as usize, root_bytes(letter), (way.len() - 1) as nat)
            =~= path_along(entries, arena, letter, way));
    }
}

/// The number of the root directory, without its sequence number.
proof fn lemma_root_reference()
    ensures
        ROOT_FILE_REF & FILE_REF_MASK == 5,
{
    assert(0x0005_0000_0000_0005u64 & 0x0000_FFFF_FFFF_FFFFu64 == 5) by (bit_vector);
}

/// A table whose entries all have references of their own is held under the paths that its
/// references tell: each entry that a way leads down to, with its own name, marks and time, and
/// with the names on the way for its path.
pub proof fn law_table_entries_are_held(
    entries: Seq<MftRawEntry>,
    arena: Seq<u8>,
    letter: char,
    gathered: Gathered,
    files: u64,
    dirs: u64,
    index: Index,
    way: Seq<int>,
)
    requires
        entries.len() <= usize::MAX,
        forall|i: int, j: int|
            0 <= i < j < entries.len() ==> (#[trigger] entries[i]).file_ref != (
            #[trigger] entries[j]).file_ref,
        lists_scan(entries, arena, letter, gathered, files, dirs),
        table_fits(entries, arena, gathered),
        finished(gathered, index),
        is_way_down(entries, way),
    ensures
        exists|id: int| #[trigger]
            holds_raw(
                index,
                id,
                entries,
                arena,
                way.last(),
                path_along(entries, arena, letter, way),
            ),
{
    let parents = choose|parents: Seq<Option<usize>>|
        {
            let items = Forest { entries, arena, parents }.listing(
                encode_utf8(drive_root_text(letter)),
            );
            &&& #[trigger] parents_of(entries, parents)
            &&& gathered == Gathered::nothing().with_all(items)
            &&& files == files_in(items)
            &&& dirs == dirs_in(items)
        };
    let f = forest_of(entries, arena, parents);
    let items = f.listing(root_bytes(letter));
    let path = path_along(entries, arena, letter, way);
    lemma_listing_fits(entries, arena, letter, parents, gathered);
    assert(0 <= way[way.len() - 1] < entries.len());
    lemma_way_is_reachable(entries, arena, letter, parents, way);
    law_reachable_is_listed(
        f,
        root_bytes(letter),
        way.last() as usize,
        (way.len() - 1) as nat,
    );
    let id = choose|id: int| 0 <= id < items.len() && items[id] == f.item(way.last() as usize, path);
    lemma_item_is_held(f, items, index, way.last() as usize, path, id);
}

/// The first way stands before the second: it leads to a place on the second, or turns to an earlier
/// entry of the table where the two part.
pub open spec fn stands_before(a: Seq<int>, b: Seq<int>) -> bool {
    exists|k: int|
        {
            &&& 0 <= k <= a.len()
            &&& k < b.len()
            &&& #[trigger] a.take(k) == b.take(k)
            &&& k == a.len() || a[k] < b[k]
        }
}

/// Every way begins with these entries.
spec fn all_begin_with(ways: Seq<Seq<int>>, start: Seq<int>) -> bool {
    forall|k: int|
        0 <= k < ways.len() ==> (#[trigger] ways[k]).len() >= start.len() && ways[k].take(
            start.len() as int,
        ) == start
}

/// Every way goes on from these entries with one of these ids.
spec fn all_go_on_with(ways: Seq<Seq<int>>, above: Seq<int>, ids: Seq<usize>) -> bool {
    forall|k: int|
        0 <= k < ways.len() ==> {
            &&& (#[trigger] ways[k]).len() > above.len()
            &&& ways[k].take(above.len() as int) == above
            &&& exists|j: int| 0 <= j < ids.len() && ways[k][above.len() as int] == #[trigger] ids[j]
        }
}

/// The ways stand in order.
pub open spec fn in_order(ways: Seq<Seq<int>>) -> bool {
    forall|a: int, b: int|
        0 <= a < b < ways.len() ==> stands_before(#[trigger] ways[a], #[trigger] ways[b])
}

/// The ways to an entry below others and to what is listed behind it.
spec fn ways_to(f: Forest, i: usize, above: Seq<int>, depth: nat) -> Seq<Seq<int>>
    decreases depth, 0nat,
{
    let way = above.push(i as int);
    seq![way] + if f.entries[i as int].is_dir && depth > 0 {
        ways_to_all(f, f.children(i), way, (depth - 1) as nat)
    } else {
        Seq::empty()
    }
}

/// The ways to some entries below others, each followed by those to what is listed behind it.
spec fn ways_to_all(f: Forest, ids: Seq<usize>, above: Seq<int>, depth: nat) -> Seq<Seq<int>>
    decreases depth, ids.len() + 1,
{
    if ids.len() == 0 {
        Seq::empty()
    } else {
        ways_to(f, ids[0], above, depth) + ways_to_all(f, ids.skip(1), above, depth)
    }
}

/// The listed items are those at the ends of the ways, with the names on the ways for their paths.
spec fn items_along(f: Forest, letter: char, items: Seq<Listed>, ways: Seq<Seq<int>>) -> bool {
    &&& items.len() == ways.len()
    &&& forall|k: int|
        0 <= k < ways.len() ==> is_way_down(f.entries, #[trigger] ways[k]) && items[k] == f.item(
            ways[k].last() as usize,
            path_along(f.entries, f.arena, letter, ways[k]),
        )
}

/// What stands before the name of an entry that lies below others.
spec fn prefix_below(f: Forest, letter: char, above: Seq<int>) -> Seq<u8> {
    if above.len() == 0 {
        root_bytes(letter)
    } else {
        path_along(f.entries, f.arena, letter, above).push(0x5c)
    }
}

/// The entry lies at the end of these entries.
spec fn lies_at_end(f: Forest, above: Seq<int>, i: usize) -> bool {
    &&& i < f.size()
    &&& above.len() == 0 ==> f.parents[i as int] is None
    &&& above.len() > 0 ==> is_way_down(f.entries, above) && f.entries[above.last()].is_dir
        && f.parents[i as int] == Some(above.last() as usize)
}

proof fn lemma_way_goes_on(f: Forest, letter: char, above: Seq<int>, i: usize)
    requires
        f.size() <= usize::MAX,
        parents_of(f.entries, f.parents),
        lies_at_end(f, above, i),
    ensures
        is_way_down(f.entries, above.push(i as int)),
        prefix_below(f, letter, above) + f.name(i) == path_along(
            f.entries,
            f.arena,
            letter,
            above.push(i as int),
        ),
{
    let way = above.push(i as int);
    lemma_root_reference();
    assert(f.name(i) == raw_name(f.entries, f.arena, i as int));
    assert(way.drop_last() =~= above);
    if above.len() == 0 {
        assert(f.parents[i as int] is None);
        assert(way[0] == i);
    } else {
        let p = above[above.len() - 1];
        assert(0 <= p < f.entries.len());
        assert(f.parents[i as int] == Some(p as usize));
        assert(way[0] == above[0]);
        assert forall|k: int| 0 <= k < way.len() implies 0 <= #[trigger] way[k]
            < f.entries.len() by {
            if k < above.len() {
                assert(way[k] == above[k]);
            }
        }
        assert forall|k: int| 0 < k < way.len() implies lies_in(
            f.entries,
            #[trigger] way[k],
            way[k - 1],
        ) by {
            assert(way[k - 1] == above[k - 1]);
            if k < above.len() {
                assert(way[k] == above[k]);
            }
        }
    }
    assert(prefix_below(f, letter, above) + f.name(i) =~= path_along(
        f.entries,
        f.arena,
        letter,
        way,
    ));
}

proof fn lemma_ways_to(f: Forest, letter: char, i: usize, above: Seq<int>, depth: nat)
    requires
        f.size() <= usize::MAX,
        parents_of(f.entries, f.parents),
        lies_at_end(f, above, i),
    ensures
        items_along(
            f,
            letter,
            f.subtree(i, prefix_below(f, letter, above), depth),
            ways_to(f, i, above, depth),
        ),
        all_begin_with(ways_to(f, i, above, depth), above.push(i as int)),
        in_order(ways_to(f, i, above, depth)),
    decreases depth, 0nat,
{
    let way = above.push(i as int);
    let path = prefix_below(f, letter, above) + f.name(i);
    let ways = ways_to(f, i, above, depth);
    let items = f.subtree(i, prefix_below(f, letter, above), depth);
    lemma_way_goes_on(f, letter, above, i);
    assert(way.last() == i);
    assert(way.take(way.len() as int) =~= way);
    if f.entries[i as int].is_dir && depth > 0 {
        let kids = f.children(i);
        let below = ways_to_all(f, kids, way, (depth - 1) as nat);
        let under = f.subtrees(kids, path.push(0x5c), (depth - 1) as nat);
        lemma_lying_in(f.parents, Some(i), f.size() as int);
        lemma_lying_in_ascends(f.parents, Some(i), f.size() as int);
        lemma_ways_to_all(f, letter, kids, way, (depth - 1) as nat);
        assert(ways == seq![way] + below);
        assert(items == seq![f.item(i, path)] + under);
        assert forall|k: int| 0 <= k < ways.len() implies is_way_down(
            f.entries,
            #[trigger] ways[k],
        ) && items[k] == f.item(
            ways[k].last() as usize,
            path_along(f.entries, f.arena, letter, ways[k]),
        ) by {
            if k > 0 {
                assert(ways[k] == below[k - 1]);
                assert(items[k] == under[k - 1]);
            }
        }
        assert forall|k: int| 0 <= k < ways.len() implies (#[trigger] ways[k]).len() >= way.len()
            && ways[k].take(way.len() as int) == way by {
            if k > 0 {
                assert(ways[k] == below[k - 1]);
            }
        }
        assert forall|a: int, b: int| 0 <= a < b < ways.len() implies stands_before(
            #[trigger] ways[a],
            #[trigger] ways[b],
        ) by {
            assert(ways[b] == below[b - 1]);
            if a == 0 {
                assert(way.take(way.len() as int) == ways[b].take(way.len() as int));
            } else {
                assert(ways[a] == below[a - 1]);
            }
        }
    } else {
        assert(ways =~= seq![way]);
        assert(items =~= seq![f.item(i, path)]);
    }
}

proof fn lemma_ways_to_all(
    f: Forest,
    letter: char,
    ids: Seq<usize>,
    above: Seq<int>,
    depth: nat,
)
    requires
        f.size() <= usize::MAX,
        parents_of(f.entries, f.parents),
        forall|j: int| 0 <= j < ids.len() ==> lies_at_end(f, above, #[trigger] ids[j]),
        forall|a: int, b: int| 0 <= a < b < ids.len() ==> #[trigger] ids[a] < #[trigger] ids[b],
    ensures
        items_along(
            f,
            letter,
            f.subtrees(ids, prefix_below(f, letter, above), depth),
            ways_to_all(f, ids, above, depth),
        ),
        all_go_on_with(ways_to_all(f, ids, above, depth), above, ids),
        in_order(ways_to_all(f, ids, above, depth)),
    decreases depth, ids.len() + 1,
{
    if ids.len() > 0 {
        let n = above.len() as int;
        let others = ids.skip(1);
        let first = ways_to(f, ids[0], above, depth);
        let rest = ways_to_all(f, others, above, depth);
        let ways = ways_to_all(f, ids, above, depth);
        let prefix = prefix_below(f, letter, above);
        let first_items = f.subtree(ids[0], prefix, depth);
        let rest_items = f.subtrees(others, prefix, depth);
        assert forall|j: int| 0 <= j < others.len() implies lies_at_end(
            f,
            above,
            #[trigger] others[j],
        ) by {
            assert(others[j] == ids[j + 1]);
        }
        assert forall|a: int, b: int| 0 <= a < b < others.len() implies #[trigger] others[a]
            < #[trigger] others[b] by {
            assert(others[a] == ids[a + 1] && others[b] == ids[b + 1]);
        }
        assert(lies_at_end(f, above, ids[0]));
        lemma_ways_to(f, letter, ids[0], above, depth);
        lemma_ways_to_all(f, letter, others, above, depth);
        assert(ways == first + rest);
        assert(f.subtrees(ids, prefix, depth) == first_items + rest_items);
        let start = above.push(ids[0] as int);
        assert forall|k: int| 0 <= k < first.len() implies (#[trigger] first[k]).len() > n
            && first[k].take(n) == above && first[k][n] == ids[0] by {
            assert(first[k].take(n + 1) == start);
            assert(first[k].take(n) =~= start.take(n));
            assert(start.take(n) =~= above);
            assert(first[k].take(n + 1)[n] == start[n]);
        }
        assert forall|k: int| 0 <= k < ways.len() implies {
            &&& (#[trigger] ways[k]).len() > above.len()
            &&& ways[k].take(above.len() as int) == above
            &&& exists|j: int| 0 <= j < ids.len() && ways[k][above.len() as int] == #[trigger] ids[j]
        } by {
            if k < first.len() {
                assert(ways[k] == first[k]);
                assert(ways[k][n] == ids[0]);
            } else {
                assert(ways[k] == rest[k - first.len()]);
                let j = choose|j: int|
                    0 <= j < others.len() && rest[k - first.len()][n] == #[trigger] others[j];
                assert(ways[k][n] == ids[j + 1]);
            }
        }
        assert forall|k: int| 0 <= k < ways.len() implies is_way_down(
            f.entries,
            #[trigger] ways[k],
        ) && (first_items + rest_items)[k] == f.item(
            ways[k].last() as usize,
            path_along(f.entries, f.arena, letter, ways[k]),
        ) by {
            if k < first.len() {
                assert(ways[k] == first[k]);
            } else {
                assert(ways[k] == rest[k - first.len()]);
            }
        }
        assert forall|a: int, b: int| 0 <= a < b < ways.len() implies stands_before(
            #[trigger] ways[a],
            #[trigger] ways[b],
        ) by {
            if b < first.len() {
                assert(ways[a] == first[a] && ways[b] == first[b]);
            } else if a >= first.len() {
                assert(ways[a] == rest[a - first.len()] && ways[b] == rest[b - first.len()]);
            } else {
                assert(ways[a] == first[a] && ways[b] == rest[b - first.len()]);
                let j = choose|j: int|
                    0 <= j < others.len() && rest[b - first.len()][n] == #[trigger] others[j];
                assert(others[j] == ids[j + 1]);
                assert(ids[0] < ids[j + 1]);
                assert(ways[a].take(n) == ways[b].take(n));
            }
        }
    }
}

/// What lies in a parent stands in the order of the table.
proof fn lemma_lying_in_ascends(parents: Seq<Option<usize>>, parent: Option<usize>, n: int)
    requires
        0 <= n <= parents.len() <= usize::MAX,
    ensures
        forall|a: int, b: int|
            0 <= a < b < lying_in(parents, parent, n).len() ==> #[trigger] lying_in(
                parents,
                parent,
                n,
            )[a] < #[trigger] lying_in(parents, parent, n)[b],
    decreases n,
{
    if n > 0 {
        lemma_lying_in_ascends(parents, parent, n - 1);
        lemma_lying_in(parents, parent, n - 1);
    }
}

/// An index of a table holds nothing but entries that a way leads down to, each with its own name,
/// marks and time, and with the names on the way for its path. They stand in the order of the ways:
/// a directory before what lies in it and what lies in it together, and neighbours in the order of
/// the table. So no way is held twice.
pub proof fn law_table_entries_stand_in_order(
    entries: Seq<MftRawEntry>,
    arena: Seq<u8>,
    letter: char,
    gathered: Gathered,
    files: u64,
    dirs: u64,
    index: Index,
) -> (ways: Seq<Seq<int>>)
    requires
        entries.len() <= usize::MAX,
        lists_scan(entries, arena, letter, gathered, files, dirs),
        table_fits(entries, arena, gathered),
        finished(gathered, index),
    ensures
        ways.len() == index.entries@.len(),
        forall|id: int|
            0 <= id < ways.len() ==> is_way_down(entries, #[trigger] ways[id]) && holds_raw(
                index,
                id,
                entries,
                arena,
                ways[id].last(),
                path_along(entries, arena, letter, ways[id]),
            ),
        in_order(ways),
{
    let parents = choose|parents: Seq<Option<usize>>|
        {
            let items = Forest { entries, arena, parents }.listing(
                encode_utf8(drive_root_text(letter)),
            );
            &&& #[trigger] parents_of(entries, parents)
            &&& gathered == Gathered::nothing().with_all(items)
            &&& files == files_in(items)
            &&& dirs == dirs_in(items)
        };
    let f = forest_of(entries, arena, parents);
    let items = f.listing(root_bytes(letter));
    let none = Seq::<int>::empty();
    let ways = ways_to_all(f, f.roots(), none, f.size());
    lemma_listing_fits(entries, arena, letter, parents, gathered);
    lemma_with_all_sizes(Gathered::nothing(), items);
    lemma_lying_in(parents, None, f.size() as int);
    lemma_lying_in_ascends(parents, None, f.size() as int);
    lemma_ways_to_all(f, letter, f.roots(), none, f.size());
    assert forall|id: int| 0 <= id < ways.len() implies is_way_down(entries, #[trigger] ways[id])
        && holds_raw(
        index,
        id,
        entries,
        arena,
        ways[id].last(),
        path_along(entries, arena, letter, ways[id]),
    ) by {
        let way = ways[id];
        assert(0 <= way[way.len() - 1] < entries.len());
        lemma_item_is_held(
            f,
            items,
            index,
            way.last() as usize,
            path_along(entries, arena, letter, way),
            id,
        );
    }
    ways
}

} // verus!
