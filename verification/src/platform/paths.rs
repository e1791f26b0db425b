//! The paths of what a scan found.

use crate::index::builder::{
    dir_entries, file_entries, law_parts_join_as_one, lemma_with_all_joined, lemma_with_all_sizes,
    Gathered, IndexBuilder, Listed,
};
use crate::index::entry::lemma_flags_read_back;
use crate::mft::arena::MftArena;
use crate::mft::scanner::{name_in_arena, MftScanResult, Scanned};
use crate::mft::types::MftRawEntry;
use crate::parallel::par_map;
use crate::platform::tree::{
    at_depth, find_parents, lemma_below_child, lemma_below_is_deeper, lemma_below_one_only,
    lemma_depth_bound, lemma_lying_in, lemma_lying_in_once, lies_below, lying_in, parents_of,
    ChildLists,
};
use crate::text::{append_bytes, lower_name, lower_name_bytes};
use vstd::prelude::*;
use vstd::utf8::{encode_utf8, valid_utf8};

verus! {

/// The byte that stands between the names of a path.
pub const SEPARATOR: u8 = 0x5c;

/// What a scan found, with the entry that each entry lies in.
#[verifier::ext_equal]
pub struct Forest {
    pub entries: Seq<MftRawEntry>,
    pub arena: Seq<u8>,
    pub parents: Seq<Option<usize>>,
}

impl Forest {
    /// How many entries there are.
    pub open spec fn size(self) -> nat {
        self.parents.len()
    }

    /// The name of an entry.
    pub open spec fn name(self, i: usize) -> Seq<u8> {
        let e = self.entries[i as int];
        self.arena.subrange(e.name_off as int, e.name_off + e.name_len)
    }

    /// What is listed of an entry with this path. A scan does not tell sizes.
    pub open spec fn item(self, i: usize, path: Seq<u8>) -> Listed {
        let e = self.entries[i as int];
        Listed {
            name: self.name(i),
            lower: lower_name(self.name(i)),
            path,
            is_dir: e.is_dir,
            is_hidden: e.is_hidden,
            size: 0,
            modified: e.modified,
        }
    }

    /// The entries that lie in an entry.
    pub open spec fn children(self, i: usize) -> Seq<usize> {
        lying_in(self.parents, Some(i), self.size() as int)
    }

    /// The entries that lie in no other.
    pub open spec fn roots(self) -> Seq<usize> {
        lying_in(self.parents, None, self.size() as int)
    }

    /// An entry whose path begins with `prefix`, and behind it what lies in it, at most `depth`
    /// levels further down. Only directories are gone into.
    pub open spec fn subtree(self, i: usize, prefix: Seq<u8>, depth: nat) -> Seq<Listed>
        decreases depth, 0nat,
    {
        let path = prefix + self.name(i);
        seq![self.item(i, path)] + if self.entries[i as int].is_dir && depth > 0 {
            self.subtrees(self.children(i), path.push(SEPARATOR), (depth - 1) as nat)
        } else {
            Seq::empty()
        }
    }

    /// Some entries, each followed by what lies in it.
    pub open spec fn subtrees(self, ids: Seq<usize>, prefix: Seq<u8>, depth: nat) -> Seq<Listed>
        decreases depth, ids.len() + 1,
    {
        if ids.len() == 0 {
            Seq::empty()
        } else {
            self.subtree(ids[0], prefix, depth) + self.subtrees(ids.skip(1), prefix, depth)
        }
    }

    /// All entries that can be reached from the root of the volume, each directory followed by what
    /// lies in it. No way down is longer than there are entries.
    pub open spec fn listing(self, prefix: Seq<u8>) -> Seq<Listed> {
        self.subtrees(self.roots(), prefix, self.size())
    }

    /// The entry lies so many levels below the root of the volume, in directories only.
    pub open spec fn reachable(self, i: usize, depth: nat) -> bool
        decreases depth,
    {
        &&& i < self.size()
        &&& if depth == 0 {
            self.parents[i as int] is None
        } else {
            self.parents[i as int] matches Some(p) && p < self.entries.len()
                && self.entries[p as int].is_dir && self.reachable(p, (depth - 1) as nat)
        }
    }

    /// The path of an entry that lies so many levels below the root of the volume: the names on the
    /// way down to it.
    pub open spec fn path_of(self, i: usize, prefix: Seq<u8>, depth: nat) -> Seq<u8>
        decreases depth,
    {
        if depth == 0 {
            prefix + self.name(i)
        } else {
            self.path_of(self.parents[i as int]->0, prefix, (depth - 1) as nat).push(SEPARATOR)
                + self.name(i)
        }
    }

    /// Every name lies in the arena, and every parent is an entry.
    pub open spec fn well_formed(self) -> bool {
        &&& self.parents.len() == self.entries.len()
        &&& forall|i: int|
            0 <= i < self.entries.len() ==> name_in_arena(#[trigger] self.entries[i], self.arena)
        &&& forall|i: int|
            0 <= i < self.parents.len() ==> (#[trigger] self.parents[i] matches Some(p) ==> p
                < self.parents.len())
    }
}

/// How many of the listed entries are directories.
pub open spec fn dirs_in(items: Seq<Listed>) -> nat
    decreases items.len(),
{
    if items.len() == 0 {
        0
    } else {
        dirs_in(items.drop_last()) + if items.last().is_dir {
            1nat
        } else {
            0nat
        }
    }
}

/// How many of the listed entries are no directories.
pub open spec fn files_in(items: Seq<Listed>) -> nat
    decreases items.len(),
{
    if items.len() == 0 {
        0
    } else {
        files_in(items.drop_last()) + if items.last().is_dir {
            0nat
        } else {
            1nat
        }
    }
}

/// The counts of a joint list are the sums of the counts.
proof fn lemma_counts_of_joined(a: Seq<Listed>, b: Seq<Listed>)
    ensures
        dirs_in(a + b) == dirs_in(a) + dirs_in(b),
        files_in(a + b) == files_in(a) + files_in(b),
    decreases b.len(),
{
    if b.len() == 0 {
        assert(a + b =~= a);
    } else {
        lemma_counts_of_joined(a, b.drop_last());
        assert((a + b).drop_last() =~= a + b.drop_last());
    }
}

/// Every listed entry is counted once.
pub proof fn law_counts_add_up(items: Seq<Listed>)
    ensures
        dirs_in(items) + files_in(items) == items.len(),
    decreases items.len(),
{
    if items.len() > 0 {
        law_counts_add_up(items.drop_last());
    }
}

/// The counts are those of the listed directories and of what is listed besides.
pub proof fn law_counts_go_by_the_kind(items: Seq<Listed>)
    ensures
        dirs_in(items) == items.filter(|x: Listed| x.is_dir).len(),
        files_in(items) == items.filter(|x: Listed| !x.is_dir).len(),
    decreases items.len(),
{
    reveal(Seq::filter);
    if items.len() > 0 {
        law_counts_go_by_the_kind(items.drop_last());
    }
}

/// A builder counts what was listed in it.
pub proof fn lemma_listed_counts(g: Gathered, items: Seq<Listed>)
    ensures
        file_entries(g.with_all(items).entries) == file_entries(g.entries) + files_in(items),
        dir_entries(g.with_all(items).entries) == dir_entries(g.entries) + dirs_in(items),
    decreases items.len(),
{
    if items.len() > 0 {
        let before = g.with_all(items.drop_last());
        lemma_listed_counts(g, items.drop_last());
        assert(g.with_all(items).entries.drop_last() =~= before.entries);
        lemma_flags_read_back(items.last().is_dir, items.last().is_hidden);
    }
}

proof fn lemma_subtrees_joined(f: Forest, a: Seq<usize>, b: Seq<usize>, prefix: Seq<u8>, depth: nat)
    ensures
        f.subtrees(a + b, prefix, depth) == f.subtrees(a, prefix, depth) + f.subtrees(
            b,
            prefix,
            depth,
        ),
    decreases a.len(),
{
    if a.len() == 0 {
        assert(a + b =~= b);
        assert(f.subtrees(a, prefix, depth) + f.subtrees(b, prefix, depth) =~= f.subtrees(
            b,
            prefix,
            depth,
        ));
    } else {
        assert((a + b).skip(1) =~= a.skip(1) + b);
        lemma_subtrees_joined(f, a.skip(1), b, prefix, depth);
        assert(f.subtrees(a + b, prefix, depth) =~= f.subtrees(a, prefix, depth) + f.subtrees(
            b,
            prefix,
            depth,
        ));
    }
}

/// An entry that can be reached lies at that depth.
proof fn lemma_reachable_depth(f: Forest, i: usize, depth: nat)
    requires
        f.reachable(i, depth),
    ensures
        at_depth(f.parents, i, depth),
    decreases depth,
{
    if depth > 0 {
        lemma_reachable_depth(f, f.parents[i as int]->0, (depth - 1) as nat);
    }
}

/// What one of several subtrees lists, they list.
proof fn lemma_subtree_of_subtrees(
    f: Forest,
    ids: Seq<usize>,
    k: int,
    prefix: Seq<u8>,
    depth: nat,
    x: Listed,
)
    requires
        0 <= k < ids.len(),
        f.subtree(ids[k], prefix, depth).contains(x),
    ensures
        f.subtrees(ids, prefix, depth).contains(x),
    decreases ids.len(),
{
    let first = f.subtree(ids[0], prefix, depth);
    let others = f.subtrees(ids.skip(1), prefix, depth);
    if k > 0 {
        assert(ids.skip(1)[k - 1] == ids[k]);
        lemma_subtree_of_subtrees(f, ids.skip(1), k - 1, prefix, depth, x);
        let j = choose|j: int| 0 <= j < others.len() && others[j] == x;
        assert((first + others)[first.len() + j] == x);
    } else {
        let j = choose|j: int| 0 <= j < first.len() && first[j] == x;
        assert((first + others)[j] == x);
    }
}

/// What the subtree of an entry that can be reached lists, the whole listing lists.
proof fn lemma_subtree_of_listing(
    f: Forest,
    prefix: Seq<u8>,
    i: usize,
    depth: nat,
    here: Seq<u8>,
    x: Listed,
)
    requires
        f.well_formed(),
        f.size() <= usize::MAX,
        f.reachable(i, depth),
        here + f.name(i) == f.path_of(i, prefix, depth),
        depth == 0 ==> here == prefix,
        depth > 0 ==> here == f.path_of(
            f.parents[i as int]->0,
            prefix,
            (depth - 1) as nat,
        ).push(SEPARATOR),
        f.subtree(i, here, (f.size() - depth) as nat).contains(x),
    ensures
        f.listing(prefix).contains(x),
    decreases depth,
{
    let n = f.size() as int;
    if depth == 0 {
        lemma_lying_in(f.parents, None, n);
        assert(f.roots().contains(i));
        let k = choose|k: int| 0 <= k < f.roots().len() && f.roots()[k] == i;
        lemma_subtree_of_subtrees(f, f.roots(), k, prefix, f.size(), x);
    } else {
        let p = f.parents[i as int]->0;
        let above = (depth - 1) as nat;
        lemma_reachable_depth(f, p, above);
        lemma_depth_bound(f.parents, p, above);
        lemma_lying_in(f.parents, Some(p), n);
        assert(f.children(p).contains(i));
        let k = choose|k: int| 0 <= k < f.children(p).len() && f.children(p)[k] == i;
        lemma_subtree_of_subtrees(f, f.children(p), k, here, (n - depth) as nat, x);
        let up = if above == 0 {
            prefix
        } else {
            f.path_of(f.parents[p as int]->0, prefix, (above - 1) as nat).push(SEPARATOR)
        };
        let below = f.subtrees(f.children(p), here, (n - depth) as nat);
        let all = f.subtree(p, up, (n - above) as nat);
        assert(up + f.name(p) == f.path_of(p, prefix, above));
        assert((n - above) as nat - 1 == n - depth);
        assert(all == seq![f.item(p, up + f.name(p))] + below);
        let j = choose|j: int| 0 <= j < below.len() && below[j] == x;
        assert(all[1 + j] == x);
        lemma_subtree_of_listing(f, prefix, p, above, up, x);
    }
}

/// Every entry that can be reached through directories is listed, with the path that the names on
/// the way down to it make.
pub proof fn law_reachable_is_listed(f: Forest, prefix: Seq<u8>, i: usize, depth: nat)
    requires
        f.well_formed(),
        f.size() <= usize::MAX,
        f.reachable(i, depth),
    ensures
        f.listing(prefix).contains(f.item(i, f.path_of(i, prefix, depth))),
{
    let here = if depth == 0 {
        prefix
    } else {
        f.path_of(f.parents[i as int]->0, prefix, (depth - 1) as nat).push(SEPARATOR)
    };
    let x = f.item(i, f.path_of(i, prefix, depth));
    assert(f.subtree(i, here, (f.size() - depth) as nat)[0] == x);
    lemma_subtree_of_listing(f, prefix, i, depth, here, x);
}

/// The item is that of an entry that can be reached, with its path.
pub open spec fn is_reached(f: Forest, prefix: Seq<u8>, x: Listed) -> bool {
    exists|i: usize, depth: nat| #[trigger]
        f.reachable(i, depth) && x == f.item(i, f.path_of(i, prefix, depth))
}

proof fn lemma_subtree_is_reached(
    f: Forest,
    prefix: Seq<u8>,
    i: usize,
    depth: nat,
    here: Seq<u8>,
    fuel: nat,
    x: Listed,
)
    requires
        f.well_formed(),
        f.size() <= usize::MAX,
        f.reachable(i, depth),
        here + f.name(i) == f.path_of(i, prefix, depth),
        f.subtree(i, here, fuel).contains(x),
    ensures
        is_reached(f, prefix, x),
    decreases fuel, 0nat,
{
    let path = here + f.name(i);
    let all = f.subtree(i, here, fuel);
    let k = choose|k: int| 0 <= k < all.len() && all[k] == x;
    if k == 0 {
        assert(x == f.item(i, f.path_of(i, prefix, depth)));
    } else {
        let below = f.subtrees(f.children(i), path.push(SEPARATOR), (fuel - 1) as nat);
        assert(below[k - 1] == x);
        lemma_lying_in(f.parents, Some(i), f.size() as int);
        assert forall|j: int| 0 <= j < f.children(i).len() implies f.reachable(
            #[trigger] f.children(i)[j],
            depth + 1,
        ) && path.push(SEPARATOR) + f.name(f.children(i)[j]) == f.path_of(
            f.children(i)[j],
            prefix,
            depth + 1,
        ) by {
            let c = f.children(i)[j];
            assert(f.parents[c as int] == Some(i));
        }
        lemma_subtrees_are_reached(
            f,
            prefix,
            f.children(i),
            depth + 1,
            path.push(SEPARATOR),
            (fuel - 1) as nat,
            x,
        );
    }
}

proof fn lemma_subtrees_are_reached(
    f: Forest,
    prefix: Seq<u8>,
    ids: Seq<usize>,
    depth: nat,
    here: Seq<u8>,
    fuel: nat,
    x: Listed,
)
    requires
        f.well_formed(),
        f.size() <= usize::MAX,
        forall|j: int|
            0 <= j < ids.len() ==> f.reachable(#[trigger] ids[j], depth) && here + f.name(ids[j])
                == f.path_of(ids[j], prefix, depth),
        f.subtrees(ids, here, fuel).contains(x),
    ensures
        is_reached(f, prefix, x),
    decreases fuel, ids.len() + 1,
{
    let first = f.subtree(ids[0], here, fuel);
    let others = f.subtrees(ids.skip(1), here, fuel);
    let all = f.subtrees(ids, here, fuel);
    let k = choose|k: int| 0 <= k < all.len() && all[k] == x;
    assert(all == first + others);
    assert(f.reachable(ids[0], depth));
    if k < first.len() {
        assert(first[k] == x);
        lemma_subtree_is_reached(f, prefix, ids[0], depth, here, fuel, x);
    } else {
        assert(others[k - first.len()] == x);
        assert forall|j: int| 0 <= j < ids.skip(1).len() implies f.reachable(
            #[trigger] ids.skip(1)[j],
            depth,
        ) && here + f.name(ids.skip(1)[j]) == f.path_of(ids.skip(1)[j], prefix, depth) by {
            assert(ids.skip(1)[j] == ids[j + 1]);
        }
        lemma_subtrees_are_reached(f, prefix, ids.skip(1), depth, here, fuel, x);
    }
}

/// Nothing else is listed: each listed item is that of an entry that can be reached through
/// directories, with the path that the names on the way down to it make.
pub proof fn law_listed_is_reachable(f: Forest, prefix: Seq<u8>, x: Listed)
    requires
        f.well_formed(),
        f.size() <= usize::MAX,
        f.listing(prefix).contains(x),
    ensures
        is_reached(f, prefix, x),
{
    lemma_lying_in(f.parents, None, f.size() as int);
    assert forall|j: int| 0 <= j < f.roots().len() implies f.reachable(
        #[trigger] f.roots()[j],
        0,
    ) && prefix + f.name(f.roots()[j]) == f.path_of(f.roots()[j], prefix, 0) by {
        let r = f.roots()[j];
        assert(f.parents[r as int] is None);
    }
    lemma_subtrees_are_reached(f, prefix, f.roots(), 0, prefix, f.size(), x);
}

/// The entries of a subtree, in the order in which they are listed.
spec fn walk(f: Forest, i: usize, depth: nat) -> Seq<usize>
    decreases depth, 0nat,
{
    seq![i] + if f.entries[i as int].is_dir && depth > 0 {
        walks(f, f.children(i), (depth - 1) as nat)
    } else {
        Seq::empty()
    }
}

/// The entries of some subtrees, in the order in which they are listed.
spec fn walks(f: Forest, ids: Seq<usize>, depth: nat) -> Seq<usize>
    decreases depth, ids.len() + 1,
{
    if ids.len() == 0 {
        Seq::empty()
    } else {
        walk(f, ids[0], depth) + walks(f, ids.skip(1), depth)
    }
}

/// The items are those of the entries, one by one.
pub open spec fn items_of(f: Forest, items: Seq<Listed>, ids: Seq<usize>) -> bool {
    &&& items.len() == ids.len()
    &&& forall|k: int|
        0 <= k < ids.len() ==> (#[trigger] items[k]) == f.item(ids[k], items[k].path)
}

proof fn lemma_items_joined(
    f: Forest,
    a: Seq<Listed>,
    b: Seq<Listed>,
    ids_a: Seq<usize>,
    ids_b: Seq<usize>,
)
    requires
        items_of(f, a, ids_a),
        items_of(f, b, ids_b),
    ensures
        items_of(f, a + b, ids_a + ids_b),
{
    assert forall|k: int| 0 <= k < (ids_a + ids_b).len() implies (#[trigger] (a + b)[k]) == f.item(
        (ids_a + ids_b)[k],
        (a + b)[k].path,
    ) by {
        if k < a.len() {
            assert(a[k] == f.item(ids_a[k], a[k].path));
        } else {
            assert(b[k - a.len()] == f.item(ids_b[k - a.len()], b[k - a.len()].path));
        }
    }
}

proof fn lemma_walk_items(f: Forest, i: usize, prefix: Seq<u8>, depth: nat)
    ensures
        items_of(f, f.subtree(i, prefix, depth), walk(f, i, depth)),
    decreases depth, 0nat,
{
    let path = prefix + f.name(i);
    let first = seq![f.item(i, path)];
    assert(items_of(f, first, seq![i]));
    if f.entries[i as int].is_dir && depth > 0 {
        lemma_walks_items(f, f.children(i), path.push(SEPARATOR), (depth - 1) as nat);
        lemma_items_joined(
            f,
            first,
            f.subtrees(f.children(i), path.push(SEPARATOR), (depth - 1) as nat),
            seq![i],
            walks(f, f.children(i), (depth - 1) as nat),
        );
    } else {
        lemma_items_joined(f, first, Seq::empty(), seq![i], Seq::empty());
    }
}

proof fn lemma_walks_items(f: Forest, ids: Seq<usize>, prefix: Seq<u8>, depth: nat)
    ensures
        items_of(f, f.subtrees(ids, prefix, depth), walks(f, ids, depth)),
    decreases depth, ids.len() + 1,
{
    if ids.len() > 0 {
        lemma_walk_items(f, ids[0], prefix, depth);
        lemma_walks_items(f, ids.skip(1), prefix, depth);
        lemma_items_joined(
            f,
            f.subtree(ids[0], prefix, depth),
            f.subtrees(ids.skip(1), prefix, depth),
            walk(f, ids[0], depth),
            walks(f, ids.skip(1), depth),
        );
    }
}

/// The entry lies below this entry, or is it.
spec fn is_below(f: Forest, j: usize, i: usize) -> bool {
    exists|levels: nat| #[trigger] lies_below(f.parents, j, i, levels)
}

/// The entry lies below one of these entries, or is one.
spec fn is_below_one(f: Forest, j: usize, ids: Seq<usize>) -> bool {
    exists|k: int| 0 <= k < ids.len() && is_below(f, j, #[trigger] ids[k])
}

proof fn lemma_walk_once(f: Forest, i: usize, depth: nat, fuel: nat)
    requires
        f.well_formed(),
        f.size() <= usize::MAX,
        at_depth(f.parents, i, depth),
    ensures
        walk(f, i, fuel).no_duplicates(),
        forall|k: int|
            0 <= k < walk(f, i, fuel).len() ==> (#[trigger] walk(f, i, fuel)[k]) < f.size()
                && is_below(f, walk(f, i, fuel)[k], i),
    decreases fuel, 0nat,
{
    let all = walk(f, i, fuel);
    assert(lies_below(f.parents, i, i, 0));
    if f.entries[i as int].is_dir && fuel > 0 {
        let kids = f.children(i);
        let rest = walks(f, kids, (fuel - 1) as nat);
        lemma_lying_in(f.parents, Some(i), f.size() as int);
        lemma_lying_in_once(f.parents, Some(i), f.size() as int);
        assert forall|j: int| 0 <= j < kids.len() implies at_depth(
            f.parents,
            #[trigger] kids[j],
            depth + 1,
        ) by {
            assert(f.parents[kids[j] as int] == Some(i));
        }
        lemma_walks_once(f, kids, depth + 1, (fuel - 1) as nat);
        assert forall|k: int| 0 <= k < rest.len() implies (#[trigger] rest[k]) != i && is_below(
            f,
            rest[k],
            i,
        ) by {
            let j = rest[k];
            assert(is_below_one(f, j, kids));
            let c = choose|c: int| 0 <= c < kids.len() && is_below(f, j, #[trigger] kids[c]);
            let levels = choose|levels: nat| #[trigger] lies_below(f.parents, j, kids[c], levels);
            assert(f.parents[kids[c] as int] == Some(i));
            lemma_below_child(f.parents, j, kids[c], i, levels);
            lemma_below_is_deeper(f.parents, j, i, levels + 1, depth);
        }
        assert forall|a: int, b: int| 0 <= a < b < all.len() implies all[a] != all[b] by {
            assert(all[b] == rest[b - 1]);
            if a > 0 {
                assert(all[a] == rest[a - 1]);
            }
        }
        assert forall|k: int| 0 <= k < all.len() implies (#[trigger] all[k]) < f.size()
            && is_below(f, all[k], i) by {
            if k > 0 {
                assert(all[k] == rest[k - 1]);
            }
        }
    } else {
        assert(all =~= seq![i]);
    }
}

proof fn lemma_walks_once(f: Forest, ids: Seq<usize>, depth: nat, fuel: nat)
    requires
        f.well_formed(),
        f.size() <= usize::MAX,
        ids.no_duplicates(),
        forall|j: int| 0 <= j < ids.len() ==> at_depth(f.parents, #[trigger] ids[j], depth),
    ensures
        walks(f, ids, fuel).no_duplicates(),
        forall|k: int|
            0 <= k < walks(f, ids, fuel).len() ==> (#[trigger] walks(f, ids, fuel)[k]) < f.size()
                && is_below_one(f, walks(f, ids, fuel)[k], ids),
    decreases fuel, ids.len() + 1,
{
    if ids.len() > 0 {
        let others = ids.skip(1);
        let first = walk(f, ids[0], fuel);
        let rest = walks(f, others, fuel);
        let all = walks(f, ids, fuel);
        assert forall|j: int| 0 <= j < others.len() implies at_depth(
            f.parents,
            #[trigger] others[j],
            depth,
        ) by {
            assert(others[j] == ids[j + 1]);
        }
        assert forall|a: int, b: int| 0 <= a < b < others.len() implies others[a] != others[b] by {
            assert(others[a] == ids[a + 1] && others[b] == ids[b + 1]);
        }
        assert(at_depth(f.parents, ids[0], depth));
        lemma_walk_once(f, ids[0], depth, fuel);
        lemma_walks_once(f, others, depth, fuel);
        assert forall|k: int| 0 <= k < all.len() implies (#[trigger] all[k]) < f.size()
            && is_below_one(f, all[k], ids) by {
            if k < first.len() {
                assert(all[k] == first[k]);
                assert(is_below(f, all[k], ids[0]));
            } else {
                assert(all[k] == rest[k - first.len()]);
                let c = choose|c: int|
                    0 <= c < others.len() && is_below(f, all[k], #[trigger] others[c]);
                assert(is_below(f, all[k], ids[c + 1]));
            }
        }
        assert forall|a: int, b: int| 0 <= a < b < all.len() implies all[a] != all[b] by {
            if b < first.len() {
                assert(all[a] == first[a] && all[b] == first[b]);
            } else if a >= first.len() {
                assert(all[a] == rest[a - first.len()] && all[b] == rest[b - first.len()]);
            } else {
                let j = first[a];
                assert(all[a] == j && all[b] == rest[b - first.len()]);
                if all[b] == j {
                    assert(is_below(f, j, ids[0]));
                    assert(is_below_one(f, j, others));
                    let c = choose|c: int|
                        0 <= c < others.len() && is_below(f, j, #[trigger] others[c]);
                    let x = choose|x: nat| #[trigger] lies_below(f.parents, j, ids[0], x);
                    let y = choose|y: nat| #[trigger] lies_below(f.parents, j, others[c], y);
                    assert(others[c] == ids[c + 1]);
                    lemma_below_one_only(f.parents, j, ids[0], x, others[c], y, depth);
                }
            }
        }
    }
}

/// The entry can be reached at some depth.
pub open spec fn is_reachable(f: Forest, i: usize) -> bool {
    exists|depth: nat| #[trigger] f.reachable(i, depth)
}

/// What is walked through from entries that can be reached can be reached.
proof fn lemma_walk_reachable(f: Forest, i: usize, depth: nat, fuel: nat)
    requires
        f.well_formed(),
        f.size() <= usize::MAX,
        f.reachable(i, depth),
    ensures
        forall|k: int|
            0 <= k < walk(f, i, fuel).len() ==> is_reachable(f, #[trigger] walk(f, i, fuel)[k]),
    decreases fuel, 0nat,
{
    let all = walk(f, i, fuel);
    if f.entries[i as int].is_dir && fuel > 0 {
        let kids = f.children(i);
        let rest = walks(f, kids, (fuel - 1) as nat);
        lemma_lying_in(f.parents, Some(i), f.size() as int);
        assert forall|j: int| 0 <= j < kids.len() implies f.reachable(
            #[trigger] kids[j],
            depth + 1,
        ) by {
            assert(f.parents[kids[j] as int] == Some(i));
        }
        lemma_walks_reachable(f, kids, depth + 1, (fuel - 1) as nat);
        assert forall|k: int| 0 <= k < all.len() implies is_reachable(f, #[trigger] all[k]) by {
            if k > 0 {
                assert(all[k] == rest[k - 1]);
            }
        }
    } else {
        assert(all =~= seq![i]);
    }
}

proof fn lemma_walks_reachable(f: Forest, ids: Seq<usize>, depth: nat, fuel: nat)
    requires
        f.well_formed(),
        f.size() <= usize::MAX,
        forall|j: int| 0 <= j < ids.len() ==> f.reachable(#[trigger] ids[j], depth),
    ensures
        forall|k: int|
            0 <= k < walks(f, ids, fuel).len() ==> is_reachable(f, #[trigger] walks(f, ids, fuel)[k]),
    decreases fuel, ids.len() + 1,
{
    if ids.len() > 0 {
        let others = ids.skip(1);
        let first = walk(f, ids[0], fuel);
        let rest = walks(f, others, fuel);
        let all = walks(f, ids, fuel);
        assert(f.reachable(ids[0], depth));
        assert forall|j: int| 0 <= j < others.len() implies f.reachable(
            #[trigger] others[j],
            depth,
        ) by {
            assert(others[j] == ids[j + 1]);
        }
        lemma_walk_reachable(f, ids[0], depth, fuel);
        lemma_walks_reachable(f, others, depth, fuel);
        assert forall|k: int| 0 <= k < all.len() implies is_reachable(f, #[trigger] all[k]) by {
            if k < first.len() {
                assert(all[k] == first[k]);
            } else {
                assert(all[k] == rest[k - first.len()]);
            }
        }
    }
}

/// What one of several walks goes through, they go through.
proof fn lemma_walk_of_walks(f: Forest, ids: Seq<usize>, k: int, depth: nat, j: usize)
    requires
        0 <= k < ids.len(),
        walk(f, ids[k], depth).contains(j),
    ensures
        walks(f, ids, depth).contains(j),
    decreases ids.len(),
{
    let first = walk(f, ids[0], depth);
    let others = walks(f, ids.skip(1), depth);
    if k > 0 {
        assert(ids.skip(1)[k - 1] == ids[k]);
        lemma_walk_of_walks(f, ids.skip(1), k - 1, depth, j);
        let m = choose|m: int| 0 <= m < others.len() && others[m] == j;
        assert((first + others)[first.len() + m] == j);
    } else {
        let m = choose|m: int| 0 <= m < first.len() && first[m] == j;
        assert((first + others)[m] == j);
    }
}

/// What is walked through from an entry that can be reached is walked through from the roots.
proof fn lemma_walk_of_all(f: Forest, i: usize, depth: nat, j: usize)
    requires
        f.well_formed(),
        f.size() <= usize::MAX,
        f.reachable(i, depth),
        walk(f, i, (f.size() - depth) as nat).contains(j),
    ensures
        walks(f, f.roots(), f.size()).contains(j),
    decreases depth,
{
    let n = f.size() as int;
    if depth == 0 {
        lemma_lying_in(f.parents, None, n);
        assert(f.roots().contains(i));
        let k = choose|k: int| 0 <= k < f.roots().len() && f.roots()[k] == i;
        lemma_walk_of_walks(f, f.roots(), k, f.size(), j);
    } else {
        let p = f.parents[i as int]->0;
        let above = (depth - 1) as nat;
        lemma_reachable_depth(f, p, above);
        lemma_depth_bound(f.parents, p, above);
        lemma_lying_in(f.parents, Some(p), n);
        assert(f.children(p).contains(i));
        let k = choose|k: int| 0 <= k < f.children(p).len() && f.children(p)[k] == i;
        lemma_walk_of_walks(f, f.children(p), k, (n - depth) as nat, j);
        let below = walks(f, f.children(p), (n - depth) as nat);
        let all = walk(f, p, (n - above) as nat);
        assert((n - above) as nat - 1 == n - depth);
        assert(all == seq![p] + below);
        let m = choose|m: int| 0 <= m < below.len() && below[m] == j;
        assert(all[1 + m] == j);
        lemma_walk_of_all(f, p, above, j);
    }
}

/// Each entry that can be reached is listed once, and nothing else is: the listing is one of
/// different entries, which are those that can be reached, in some order.
pub proof fn law_nothing_is_listed_twice(f: Forest, prefix: Seq<u8>)
    requires
        f.well_formed(),
        f.size() <= usize::MAX,
    ensures
        exists|ids: Seq<usize>|
            {
                &&& ids.no_duplicates()
                &&& forall|i: usize| #[trigger] ids.contains(i) <==> is_reachable(f, i)
                &&& #[trigger] items_of(f, f.listing(prefix), ids)
            },
{
    lemma_lying_in(f.parents, None, f.size() as int);
    lemma_lying_in_once(f.parents, None, f.size() as int);
    assert forall|j: int| 0 <= j < f.roots().len() implies at_depth(
        f.parents,
        #[trigger] f.roots()[j],
        0,
    ) && f.reachable(f.roots()[j], 0) by {
        assert(f.parents[f.roots()[j] as int] is None);
    }
    lemma_walks_once(f, f.roots(), 0, f.size());
    lemma_walks_items(f, f.roots(), prefix, f.size());
    lemma_walks_reachable(f, f.roots(), 0, f.size());
    let ids = walks(f, f.roots(), f.size());
    assert forall|i: usize| #[trigger] ids.contains(i) <==> is_reachable(f, i) by {
        if is_reachable(f, i) {
            let depth = choose|depth: nat| #[trigger] f.reachable(i, depth);
            let fuel = (f.size() - depth) as nat;
            assert(walk(f, i, fuel)[0] == i);
            lemma_walk_of_all(f, i, depth, i);
        }
        if ids.contains(i) {
            let k = choose|k: int| 0 <= k < ids.len() && ids[k] == i;
            assert(is_reachable(f, ids[k]));
        }
    }
    assert(items_of(f, f.listing(prefix), ids));
}

/// Where all names of a scan are text, so is every path that is listed.
pub proof fn law_listed_paths_are_text(f: Forest, prefix: Seq<u8>, x: Listed)
    requires
        f.well_formed(),
        forall|i: usize| i < f.size() ==> valid_utf8(#[trigger] f.name(i)),
        f.size() <= usize::MAX,
        valid_utf8(prefix),
        f.listing(prefix).contains(x),
    ensures
        valid_utf8(x.name),
        valid_utf8(x.path),
{
    law_listed_is_reachable(f, prefix, x);
    let (i, depth) = choose|i: usize, depth: nat| #[trigger]
        f.reachable(i, depth) && x == f.item(i, f.path_of(i, prefix, depth));
    lemma_path_is_text(f, i, prefix, depth);
}

proof fn lemma_path_is_text(f: Forest, i: usize, prefix: Seq<u8>, depth: nat)
    requires
        f.well_formed(),
        forall|i: usize| i < f.size() ==> valid_utf8(#[trigger] f.name(i)),
        f.reachable(i, depth),
        valid_utf8(prefix),
    ensures
        valid_utf8(f.name(i)),
        valid_utf8(f.path_of(i, prefix, depth)),
    decreases depth,
{
    if depth == 0 {
        vstd::utf8::valid_utf8_concat(prefix, f.name(i));
    } else {
        let p = f.parents[i as int]->0;
        let above = f.path_of(p, prefix, (depth - 1) as nat);
        lemma_path_is_text(f, p, prefix, (depth - 1) as nat);
        assert(seq![SEPARATOR] =~= encode_utf8(seq!['\\'])) by {
            vstd::utf8::is_ascii_chars_encode_utf8(seq!['\\']);
        }
        vstd::utf8::encode_utf8_valid_utf8(seq!['\\']);
        vstd::utf8::valid_utf8_concat(above, seq![SEPARATOR]);
        assert(above.push(SEPARATOR) =~= above + seq![SEPARATOR]);
        vstd::utf8::valid_utf8_concat(above.push(SEPARATOR), f.name(i));
    }
}

/// What is left to be listed: the entries on the stack, from the top down, each with the length of
/// the prefix that its path begins with and with the depth at which it lies.
spec fn pending(
    f: Forest,
    stack: Seq<(usize, usize)>,
    depths: Seq<nat>,
    path: Seq<u8>,
) -> Seq<Listed>
    decreases stack.len(),
{
    if stack.len() == 0 {
        Seq::empty()
    } else {
        let top = stack.last();
        f.subtree(top.0, path.take(top.1 as int), (f.size() - depths.last()) as nat) + pending(
            f,
            stack.drop_last(),
            depths.drop_last(),
            path,
        )
    }
}

/// Only the prefixes of a path matter to what is pending.
proof fn lemma_pending_prefixes(
    f: Forest,
    stack: Seq<(usize, usize)>,
    depths: Seq<nat>,
    a: Seq<u8>,
    b: Seq<u8>,
    common: int,
)
    requires
        0 <= common <= a.len(),
        common <= b.len(),
        a.take(common) == b.take(common),
        forall|k: int| 0 <= k < stack.len() ==> (#[trigger] stack[k]).1 <= common,
    ensures
        pending(f, stack, depths, a) == pending(f, stack, depths, b),
    decreases stack.len(),
{
    if stack.len() > 0 {
        let len = stack[stack.len() - 1].1 as int;
        assert(a.take(len) =~= a.take(common).take(len));
        assert(b.take(len) =~= b.take(common).take(len));
        lemma_pending_prefixes(f, stack.drop_last(), depths.drop_last(), a, b, common);
    }
}

/// The scanned entries with the lists of what lies in each.
struct DirTree {
    entries: Vec<MftRawEntry>,
    arena: MftArena,
    parents: Vec<Option<usize>>,
    lists: ChildLists,
}

/// A part of an index, and how many files and directories it lists.
struct Part {
    builder: IndexBuilder,
    files: u64,
    dirs: u64,
}

impl Part {
    /// The part lists these entries.
    spec fn lists(&self, items: Seq<Listed>) -> bool {
        &&& self.builder@ == Gathered::nothing().with_all(items)
        &&& self.builder@.well_formed()
        &&& self.files == files_in(items)
        &&& self.dirs == dirs_in(items)
    }
}

impl DirTree {
    spec fn forest(&self) -> Forest {
        Forest { entries: self.entries@, arena: self.arena@, parents: self.parents@ }
    }

    spec fn well_formed(&self) -> bool {
        &&& self.forest().well_formed()
        &&& self.lists.lists(self.parents@)
    }

    /// The entries that lie in no other.
    fn find_roots(&self) -> (roots: Vec<usize>)
        ensures
            roots@ == self.forest().roots(),
            forall|k: int|
                0 <= k < roots@.len() ==> at_depth(self.parents@, #[trigger] roots@[k], 0),
    {
        let mut roots: Vec<usize> = Vec::new();
        let n: usize = self.parents.len();
        let mut i: usize = 0;
        while i < n
            invariant
                i <= n == self.parents@.len(),
                roots@ == lying_in(self.parents@, None, i as int),
            decreases n - i,
        {
            if self.parents[i].is_none() {
                roots.push(i);
            }
            i += 1;
        }
        proof {
            lemma_lying_in(self.parents@, None, n as int);
        }
        roots
    }

    /// Lists some entries without a parent, and all that can be reached from them, with paths that
    /// begin with `prefix`.
    fn list(&self, roots: &[usize], prefix: &[u8], capacity: usize) -> (part: Part)
        requires
            self.well_formed(),
            forall|k: int| 0 <= k < roots@.len() ==> at_depth(self.parents@, #[trigger] roots@[k], 0),
        ensures
            part.lists(self.forest().subtrees(roots@, prefix@, self.parents@.len())),
    {
        let ghost f = self.forest();
        let ghost total = f.subtrees(roots@, prefix@, f.size());
        let mut builder = IndexBuilder::with_capacity(capacity);
        let mut files: u64 = 0;
        let mut dirs: u64 = 0;
        let mut path_buf: Vec<u8> = Vec::with_capacity(512);
        append_bytes(&mut path_buf, prefix);
        assert(path_buf@ =~= prefix@);
        let mut stack: Vec<(usize, usize)> = Vec::with_capacity(4096);
        let ghost mut depths: Seq<nat> = Seq::empty();
        let ghost mut emitted: Seq<Listed> = Seq::empty();
        let mut k: usize = roots.len();
        while k > 0
            invariant
                k <= roots@.len(),
                f == self.forest(),
                path_buf@ == prefix@,
                path_buf@.len() == prefix.len(),
                forall|j: int|
                    0 <= j < roots@.len() ==> at_depth(self.parents@, #[trigger] roots@[j], 0),
                stack@.len() == depths.len(),
                forall|j: int|
                    0 <= j < stack@.len() ==> {
                        &&& at_depth(self.parents@, (#[trigger] stack@[j]).0, depths[j])
                        &&& stack@[j].1 == prefix@.len()
                    },
                pending(f, stack@, depths, path_buf@) == f.subtrees(
                    roots@.skip(k as int),
                    prefix@,
                    f.size(),
                ),
            decreases k,
        {
            k -= 1;
            let ghost before = stack@;
            let ghost depths_before = depths;
            stack.push((roots[k], prefix.len()));
            proof {
                depths = depths.push(0);
                assert(stack@.drop_last() =~= before);
                assert(depths.drop_last() =~= depths_before);
                assert(roots@.skip(k as int).skip(1) =~= roots@.skip(k + 1));
                assert(path_buf@.take(prefix@.len() as int) =~= prefix@);
            }
        }
        assert(roots@.skip(0) =~= roots@);
        assert(emitted + pending(f, stack@, depths, path_buf@) =~= total);
        assert(builder@ == Gathered::nothing().with_all(emitted));
        while stack.len() > 0
            invariant
                self.well_formed(),
                f == self.forest(),
                stack@.len() == depths.len(),
                forall|j: int|
                    0 <= j < stack@.len() ==> {
                        &&& at_depth(self.parents@, (#[trigger] stack@[j]).0, depths[j])
                        &&& stack@[j].1 <= path_buf@.len()
                    },
                forall|i: int, j: int|
                    0 <= i <= j < stack@.len() ==> (#[trigger] stack@[i]).1 <= (
                    #[trigger] stack@[j]).1,
                emitted + pending(f, stack@, depths, path_buf@) == total,
                builder@ == Gathered::nothing().with_all(emitted),
                builder@.well_formed(),
                builder@.entries.len() == emitted.len(),
                files == files_in(emitted),
                dirs == dirs_in(emitted),
            decreases total.len() - emitted.len(),
        {
            let ghost before = stack@;
            let ghost depths_before = depths;
            let ghost path_before = path_buf@;
            let ghost emitted_before = emitted;
            let ghost depth = depths.last();
            let (idx, parent_path_len) = stack.pop().unwrap();
            proof {
                depths = depths.drop_last();
                assert(before.last() == before[before.len() - 1]);
                assert(at_depth(self.parents@, idx, depth));
                lemma_depth_bound(self.parents@, idx, depth);
            }
            let entry = &self.entries[idx];
            assert(name_in_arena(f.entries[idx as int], self.arena@));
            let name = self.arena.get_bytes(entry.name_off, entry.name_len);

            path_buf.truncate(parent_path_len);
            let ghost prefix_here = path_buf@;
            append_bytes(&mut path_buf, name);
            let ghost path = path_buf@;
            let lower = lower_name_bytes(name);
            builder.add_lowered(
                name,
                lower.as_slice(),
                path_buf.as_slice(),
                entry.is_dir,
                entry.is_hidden,
                0,
                entry.modified,
            );
            let ghost children = f.children(idx);
            let ghost below = (f.size() - depth - 1) as nat;
            let ghost rest = pending(f, stack@, depths, path_before);
            proof {
                emitted = emitted.push(f.item(idx, path));
                assert(emitted.drop_last() =~= emitted_before);
                law_counts_add_up(emitted);
                assert(prefix_here =~= path_before.take(parent_path_len as int));
                assert(stack@ =~= before.drop_last());
                assert(depths =~= depths_before.drop_last());
                assert(emitted_before + (seq![f.item(idx, path)] + rest) =~= emitted + rest);
            }
            if entry.is_dir {
                dirs += 1;
            } else {
                files += 1;
            }

            let children_start: usize = self.lists.offsets[idx];
            assert(self.lists.offsets.len() == self.parents@.len() + 1);
            let children_end: usize = self.lists.offsets[idx + 1];
            assert(self.lists.offsets@[idx as int] <= self.lists.offsets@[idx + 1]);
            if entry.is_dir && children_start < children_end {
                path_buf.push(SEPARATOR);
                let child_prefix_len: usize = path_buf.len();
                let ghost child_prefix = path_buf@;
                let ghost base = stack@;
                let ghost base_depths = depths;
                proof {
                    assert(path_before.take(parent_path_len as int) =~= path_buf@.take(
                        parent_path_len as int,
                    ));
                    lemma_pending_prefixes(
                        f,
                        stack@,
                        depths,
                        path_before,
                        path_buf@,
                        parent_path_len as int,
                    );
                    assert(children.skip(children.len() as int) =~= Seq::<usize>::empty());
                    assert(f.subtrees(
                        children.skip(children.len() as int),
                        child_prefix,
                        below,
                    ) + rest =~= rest);
                    assert(self.parents.len() == self.parents@.len());
                    lemma_lying_in(self.parents@, Some(idx), self.parents@.len() as int);
                }
                let mut ci: usize = children_end;
                while ci > children_start
                    invariant
                        children_start <= ci <= children_end <= self.lists.flat@.len(),
                        child_prefix_len == child_prefix.len(),
                        path_buf@ == child_prefix,
                        f == self.forest(),
                        depth + 1 + below == f.size(),
                        children == self.lists.flat@.subrange(
                            children_start as int,
                            children_end as int,
                        ),
                        forall|j: int|
                            0 <= j < children.len() ==> at_depth(
                                self.parents@,
                                #[trigger] children[j],
                                depth + 1,
                            ),
                        stack@.len() == depths.len(),
                        forall|j: int|
                            0 <= j < stack@.len() ==> {
                                &&& at_depth(self.parents@, (#[trigger] stack@[j]).0, depths[j])
                                &&& stack@[j].1 <= path_buf@.len()
                            },
                        forall|i: int, j: int|
                            0 <= i <= j < stack@.len() ==> (#[trigger] stack@[i]).1 <= (
                            #[trigger] stack@[j]).1,
                        pending(f, stack@, depths, path_buf@) == f.subtrees(
                            children.skip(ci - children_start),
                            child_prefix,
                            below,
                        ) + rest,
                    decreases ci,
                {
                    ci -= 1;
                    let ghost stack_before = stack@;
                    let ghost depths_here = depths;
                    let ghost j = ci - children_start;
                    stack.push((self.lists.flat[ci], child_prefix_len));
                    proof {
                        depths = depths.push(depth + 1);
                        assert(children[j] == self.lists.flat@[ci as int]);
                        assert(stack@.drop_last() =~= stack_before);
                        assert(depths.drop_last() =~= depths_here);
                        assert(children.skip(j).skip(1) =~= children.skip(j + 1));
                        assert(path_buf@.take(child_prefix_len as int) =~= child_prefix);
                        assert(pending(f, stack@, depths, path_buf@) =~= f.subtrees(
                            children.skip(j),
                            child_prefix,
                            below,
                        ) + rest);
                    }
                }
                assert(children.skip(0) =~= children);
            } else {
                proof {
                    assert(path_before.take(parent_path_len as int) =~= path_buf@.take(
                        parent_path_len as int,
                    ));
                    lemma_pending_prefixes(
                        f,
                        stack@,
                        depths,
                        path_before,
                        path_buf@,
                        parent_path_len as int,
                    );
                    if entry.is_dir {
                        assert(children =~= Seq::<usize>::empty());
                    }
                }
            }
            proof {
                assert(emitted + pending(f, stack@, depths, path_buf@) =~= total);
            }
        }
        proof {
            assert(emitted =~= total);
        }
        Part { builder, files, dirs }
    }

    /// Lists the entries of each chunk, on all processors.
    fn list_chunks(&self, roots: &[usize], prefix: &[u8], chunks: Vec<(usize, usize)>) -> (parts:
        Vec<Part>)
        requires
            self.well_formed(),
            forall|k: int|
                0 <= k < roots@.len() ==> at_depth(self.parents@, #[trigger] roots@[k], 0),
            covers(chunks@, roots@.len() as int),
        ensures
            parts@.len() == chunks@.len(),
            forall|i: int|
                0 <= i < parts@.len() ==> (#[trigger] parts@[i]).lists(
                    self.forest().subtrees(
                        roots@.subrange(chunks@[i].0 as int, chunks@[i].1 as int),
                        prefix@,
                        self.parents@.len(),
                    ),
                ),
    {
        let ghost cuts = chunks@;
        let list_chunk = |chunk: (usize, usize)| -> (part: Part)
            requires
                self.well_formed(),
                chunk.0 <= chunk.1 <= roots@.len(),
                forall|k: int|
                    0 <= k < roots@.len() ==> at_depth(self.parents@, #[trigger] roots@[k], 0),
            ensures
                part.lists(
                    self.forest().subtrees(
                        roots@.subrange(chunk.0 as int, chunk.1 as int),
                        prefix@,
                        self.parents@.len(),
                    ),
                ),
            {
                let some = vstd::slice::slice_subrange(roots, chunk.0, chunk.1);
                self.list(some, prefix, self.entries.len() / 8)
            };
        let parts = par_map(chunks, list_chunk);
        assert forall|i: int| 0 <= i < parts@.len() implies (#[trigger] parts@[i]).lists(
            self.forest().subtrees(
                roots@.subrange(cuts[i].0 as int, cuts[i].1 as int),
                prefix@,
                self.parents@.len(),
            ),
        ) by {
            assert(list_chunk.ensures((cuts[i],), parts@[i]));
        }
        parts
    }

    /// Does what `list` does, chunk by chunk on all processors.
    fn list_in_parallel(&self, roots: &[usize], prefix: &[u8]) -> (part: Part)
        requires
            self.well_formed(),
            forall|k: int|
                0 <= k < roots@.len() ==> at_depth(self.parents@, #[trigger] roots@[k], 0),
        ensures
            part.lists(self.forest().subtrees(roots@, prefix@, self.parents@.len())),
    {
        let ghost f = self.forest();
        let chunks = cut(roots.len());
        let ghost cuts = chunks@;
        let parts = self.list_chunks(roots, prefix, chunks);
        let ghost given = parts@;
        let mut merged = IndexBuilder::with_capacity(self.entries.len());
        let mut files: u64 = 0;
        let mut dirs: u64 = 0;
        let ghost mut done: Seq<Listed> = Seq::empty();
        proof {
            assert(roots@.take(0) =~= Seq::<usize>::empty());
            assert(done =~= f.subtrees(roots@.take(0), prefix@, f.size()));
        }
        for part in it: parts
            invariant
                it.seq() == given,
                given.len() == cuts.len(),
                f == self.forest(),
                forall|i: int|
                    0 <= i < given.len() ==> (#[trigger] given[i]).lists(
                        f.subtrees(
                            roots@.subrange(cuts[i].0 as int, cuts[i].1 as int),
                            prefix@,
                            f.size(),
                        ),
                    ),
                covers(cuts, roots@.len() as int),
                merged@ == Gathered::nothing().with_all(done),
                merged@.well_formed(),
                merged@.entries.len() == done.len(),
                files == files_in(done),
                dirs == dirs_in(done),
                done == f.subtrees(
                    roots@.take(chunk_start(cuts, it.index() as int)),
                    prefix@,
                    f.size(),
                ),
        {
            let ghost i = it.index() as int;
            let ghost before = merged@;
            let ghost some = roots@.subrange(cuts[i].0 as int, cuts[i].1 as int);
            let ghost items = f.subtrees(some, prefix@, f.size());
            assert(given[i].lists(items));
            let Part { builder, files: more_files, dirs: more_dirs } = part;
            merged.merge(builder);
            proof {
                lemma_with_all_sizes(Gathered::nothing(), items);
                law_parts_join_as_one(before, items);
                lemma_with_all_joined(Gathered::nothing(), done, items);
                lemma_counts_of_joined(done, items);
                law_counts_add_up(done + items);
                assert(roots@.take(cuts[i].1 as int) =~= roots@.take(cuts[i].0 as int) + some);
                lemma_subtrees_joined(f, roots@.take(cuts[i].0 as int), some, prefix@, f.size());
                done = done + items;
            }
            files = files + more_files;
            dirs = dirs + more_dirs;
        }
        assert(roots@.take(roots@.len() as int) =~= roots@);
        Part { builder: merged, files, dirs }
    }
}

/// The path of the root of a volume.
pub open spec fn drive_root_text(letter: char) -> Seq<char> {
    seq![letter, ':', '\\']
}

/// The path of the root of a volume.
pub fn drive_root(letter: char) -> (root: String)
    ensures
        root@ == drive_root_text(letter),
{
    let mut root = String::new();
    root.push(letter);
    root.push(':');
    root.push('\\');
    assert(root@ =~= drive_root_text(letter));
    root
}

/// What comes of a scan: an index builder that lists what can be reached, and the counts of files
/// and directories. Where several entries have the same reference, which of them is gone into is
/// left open.
pub open spec fn lists_scan(
    entries: Seq<MftRawEntry>,
    arena: Seq<u8>,
    letter: char,
    gathered: Gathered,
    files: u64,
    dirs: u64,
) -> bool {
    exists|parents: Seq<Option<usize>>|
        {
            let items = Forest { entries, arena, parents }.listing(
                encode_utf8(drive_root_text(letter)),
            );
            &&& #[trigger] parents_of(entries, parents)
            &&& gathered == Gathered::nothing().with_all(items)
            &&& files == files_in(items)
            &&& dirs == dirs_in(items)
        }
}

/// From how many entries in the root on the work is spread over the processors.
const PARALLEL_ROOTS: usize = 16;

/// Where the chunk before the one at `i` ends.
spec fn chunk_start(chunks: Seq<(usize, usize)>, i: int) -> int {
    if i <= 0 {
        0
    } else {
        chunks[i - 1].1 as int
    }
}

/// The chunks follow one another and cover everything below `n`.
spec fn covers(chunks: Seq<(usize, usize)>, n: int) -> bool {
    &&& forall|i: int|
        0 <= i < chunks.len() ==> (#[trigger] chunks[i]).0 == chunk_start(chunks, i) && chunks[i].0
            <= chunks[i].1 <= n
    &&& chunk_start(chunks, chunks.len() as int) == n
}

/// Cuts the numbers below `n` into about eight chunks of the same size.
fn cut(n: usize) -> (chunks: Vec<(usize, usize)>)
    ensures
        covers(chunks@, n as int),
{
    let size: usize = if n % 8 == 0 {
        n / 8
    } else {
        n / 8 + 1
    };
    let mut chunks: Vec<(usize, usize)> = Vec::with_capacity(8);
    let mut start: usize = 0;
    while start < n
        invariant
            start <= n,
            n > 0 ==> size > 0,
            start == chunk_start(chunks@, chunks@.len() as int),
            forall|i: int|
                0 <= i < chunks@.len() ==> (#[trigger] chunks@[i]).0 == chunk_start(chunks@, i)
                    && chunks@[i].0 <= chunks@[i].1 <= n,
        decreases n - start,
    {
        let end: usize = if n - start < size {
            n
        } else {
            start + size
        };
        let ghost before = chunks@;
        chunks.push((start, end));
        assert forall|i: int| 0 <= i < chunks@.len() implies (#[trigger] chunks@[i]).0
            == chunk_start(chunks@, i) && chunks@[i].0 <= chunks@[i].1 <= n by {
            if i < before.len() {
                assert(before[i].0 == chunk_start(before, i));
            }
            if i > 0 {
                assert(chunks@[i - 1] == before[i - 1]);
            }
        }
        start = end;
    }
    chunks
}

/// Puts the entries of a scan in a builder, each with its path. Gives the builder and the counts of
/// files and directories in it.
pub fn build_paths_into_builder(scan_result: MftScanResult, drive_letter: char) -> (built: (
    IndexBuilder,
    u64,
    u64,
))
    requires
        scan_result.well_formed(),
    ensures
        lists_scan(
            scan_result.entries@,
            scan_result.arena@,
            drive_letter,
            built.0@,
            built.1,
            built.2,
        ),
        built.0@.well_formed(),
        built.1 == file_entries(built.0@.entries),
        built.2 == dir_entries(built.0@.entries),
{
    let MftScanResult { entries, arena } = scan_result;
    let ghost scanned = Scanned { start: 0, entries: entries@, arena: arena@ };
    let parents = find_parents(&entries);
    let lists = ChildLists::new(&parents);
    let tree = DirTree { entries, arena, parents, lists };
    let ghost f = tree.forest();
    assert(f.well_formed()) by {
        assert forall|i: int| 0 <= i < f.entries.len() implies name_in_arena(
            #[trigger] f.entries[i],
            f.arena,
        ) by {
            assert(name_in_arena(scanned.entries[i], scanned.arena));
        }
    }

    let roots = tree.find_roots();
    assert(forall|k: int|
        0 <= k < roots@.len() ==> at_depth(tree.parents@, #[trigger] roots@[k], 0));
    let root_prefix = drive_root(drive_letter);
    let prefix = root_prefix.as_str().as_bytes();
    let ghost total = f.listing(prefix@);

    let part = if roots.len() >= PARALLEL_ROOTS {
        tree.list_in_parallel(roots.as_slice(), prefix)
    } else {
        tree.list(roots.as_slice(), prefix, tree.entries.len())
    };
    assert(part.lists(total));
    proof {
        lemma_listed_counts(Gathered::nothing(), total);
    }
    let Part { builder, files, dirs } = part;
    assert(parents_of(f.entries, f.parents));
    (builder, files, dirs)
}

} // verus!
