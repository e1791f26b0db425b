//! Building an index entry by entry, and joining the parts of one.

use crate::index::entry::{
    flags_of, law_marks_are_the_lowest_bits, lemma_flags_read_back, make_flags, marks_dir, Entry,
};
use crate::index::extension_map::{
    extension_keys, extension_list_mut, extension_lists, ids_at, lists_extensions,
    new_extension_map,
};
use crate::index::posting_map::{into_posting_pairs, list_at, lists_pairs};
use crate::index::store::{
    find_last_dot, in_arena, indexed_extension, record_of, records_of, Index, Record,
    LONGEST_EXTENSION,
};
use crate::index::trigram::{
    lemma_posted_members, lemma_runs_keep_values, posted, runs, trigrams, TrigramIndex,
};
use crate::sorting::{lemma_push_contains, sort_dedup, sorted_set_of, strictly_ascending};
use crate::text::{append_bytes, lower_bytes, lower_utf8};
use ahash::AHashMap;
use vstd::prelude::*;
use vstd::string::StringSliceAdditionalSpecFns;

verus! {

/// More entries than this are not reserved for in advance.
const LARGEST_HINT: usize = 0x100_0000;

/// What a builder has gathered.
#[verifier::ext_equal]
pub struct Gathered {
    pub entries: Seq<Entry>,
    pub arena: Seq<u8>,
    pub extensions: Seq<(Seq<u8>, u32)>,
    pub postings: Map<u32, Seq<u32>>,
}

/// At most as many bytes as a name length can tell.
pub open spec fn clipped(len: int) -> u16 {
    if len < 0xffff {
        len as u16
    } else {
        0xffffu16
    }
}

/// An entry as it is added.
#[verifier::ext_equal]
pub struct Listed {
    pub name: Seq<u8>,
    pub lower: Seq<u8>,
    pub path: Seq<u8>,
    pub is_dir: bool,
    pub is_hidden: bool,
    pub size: u64,
    pub modified: u64,
}

impl Listed {
    /// What the index is to know of the entry.
    pub open spec fn record(self) -> Record {
        Record {
            name: self.name,
            lower: self.lower,
            path: self.path,
            size: self.size,
            modified: self.modified,
            flags: flags_of(self.is_dir, self.is_hidden),
        }
    }
}

/// Under each key the list of the first behind which stands that of the second, moved up.
pub open spec fn merged_lists(
    a: Map<u32, Seq<u32>>,
    b: Map<u32, Seq<u32>>,
    base: u32,
) -> Map<u32, Seq<u32>> {
    Map::new(
        |t: u32| a.contains_key(t) || b.contains_key(t),
        |t: u32| list_at(a, t) + moved_list(list_at(b, t), base),
    )
}

impl Gathered {
    /// Nothing yet.
    pub open spec fn nothing() -> Gathered {
        Gathered {
            entries: Seq::empty(),
            arena: Seq::empty(),
            extensions: Seq::empty(),
            postings: Map::empty(),
        }
    }

    /// The entry that adding these texts makes. Offsets and lengths are kept modulo their width.
    pub open spec fn next_entry(
        self,
        name: Seq<u8>,
        lower: Seq<u8>,
        path: Seq<u8>,
        flags: u16,
        size: u64,
        modified: u64,
    ) -> Entry {
        Entry {
            name_off: self.arena.len() as u32,
            name_len: clipped(name.len() as int),
            name_lower_off: (self.arena.len() + name.len()) as u32,
            name_lower_len: clipped(lower.len() as int),
            path_off: (self.arena.len() + name.len() + lower.len()) as u32,
            path_len: path.len() as u32,
            size,
            modified,
            flags,
        }
    }

    /// One entry more: its texts are appended to the arena, its id is posted under the trigrams of
    /// its lower case name, and it is noted under its extension.
    pub open spec fn added(
        self,
        name: Seq<u8>,
        lower: Seq<u8>,
        path: Seq<u8>,
        is_dir: bool,
        is_hidden: bool,
        size: u64,
        modified: u64,
    ) -> Gathered {
        let id = self.entries.len() as u32;
        let flags = flags_of(is_dir, is_hidden);
        Gathered {
            entries: self.entries.push(
                self.next_entry(name, lower, path, flags, size, modified),
            ),
            arena: self.arena + name + lower + path,
            extensions: match indexed_extension(lower, is_dir) {
                Some(ext) => self.extensions.push((ext, id)),
                None => self.extensions,
            },
            postings: posted(self.postings, id, runs(trigrams(lower))),
        }
    }

    /// All that `other` gathered behind what `self` did: its offsets and ids are moved up.
    pub open spec fn merged(self, other: Gathered) -> Gathered {
        let arena_base = self.arena.len() as u32;
        let id_base = self.entries.len() as u32;
        Gathered {
            entries: self.entries + moved_entries(other.entries, arena_base),
            arena: self.arena + other.arena,
            extensions: self.extensions + moved_extensions(other.extensions, id_base),
            postings: merged_lists(self.postings, other.postings, id_base),
        }
    }

    /// One listed entry more.
    pub open spec fn with(self, item: Listed) -> Gathered {
        self.added(
            item.name,
            item.lower,
            item.path,
            item.is_dir,
            item.is_hidden,
            item.size,
            item.modified,
        )
    }

    /// All listed entries more, from the first to the last.
    pub open spec fn with_all(self, items: Seq<Listed>) -> Gathered
        decreases items.len(),
    {
        if items.len() == 0 {
            self
        } else {
            self.with_all(items.drop_last()).with(items.last())
        }
    }

    /// The records, in the order of their ids.
    pub open spec fn records(self) -> Seq<Record> {
        records_of(self.entries, self.arena)
    }

    /// Every text lies inside the arena, and every noted id is that of an entry.
    pub open spec fn well_formed(self) -> bool {
        &&& forall|i: int|
            0 <= i < self.entries.len() ==> in_arena(
                #[trigger] self.entries[i],
                self.arena.len() as int,
            )
        &&& forall|i: int|
            0 <= i < self.extensions.len() ==> (#[trigger] self.extensions[i]).1
                < self.entries.len()
        &&& forall|t: u32, id: u32| #[trigger]
            list_at(self.postings, t).contains(id) ==> id < self.entries.len()
    }

    /// Nothing was cut short, and the lists say of the entries exactly what their names hold.
    pub open spec fn faithful(self) -> bool {
        &&& self.well_formed()
        &&& self.entries.len() <= u32::MAX
        &&& self.arena.len() <= u32::MAX
        &&& forall|t: u32, id: u32| #[trigger]
            list_at(self.postings, t).contains(id) <==> id < self.entries.len() && trigrams(
                self.records()[id as int].lower,
            ).contains(t)
        &&& forall|ext: Seq<u8>, id: u32| #[trigger]
            self.extensions.contains((ext, id)) <==> id < self.entries.len() && indexed_extension(
                self.records()[id as int].lower,
                marks_dir(self.records()[id as int].flags),
            ) == Some(ext)
    }
}

/// How many of the entries are directories.
pub open spec fn dir_entries(entries: Seq<Entry>) -> nat
    decreases entries.len(),
{
    if entries.len() == 0 {
        0
    } else {
        dir_entries(entries.drop_last()) + if marks_dir(entries.last().flags) {
            1nat
        } else {
            0nat
        }
    }
}

/// How many of the entries are no directories.
pub open spec fn file_entries(entries: Seq<Entry>) -> nat
    decreases entries.len(),
{
    if entries.len() == 0 {
        0
    } else {
        file_entries(entries.drop_last()) + if marks_dir(entries.last().flags) {
            0nat
        } else {
            1nat
        }
    }
}

/// Every entry is counted once.
pub proof fn law_entries_are_counted_once(entries: Seq<Entry>)
    ensures
        file_entries(entries) + dir_entries(entries) == entries.len(),
    decreases entries.len(),
{
    if entries.len() > 0 {
        law_entries_are_counted_once(entries.drop_last());
    }
}

/// The counts are those of the entries whose lowest flag bit is set and of those whose is not.
pub proof fn law_counts_go_by_the_lowest_bit(entries: Seq<Entry>)
    ensures
        dir_entries(entries) == entries.filter(|e: Entry| e.flags % 2 == 1).len(),
        file_entries(entries) == entries.filter(|e: Entry| e.flags % 2 == 0).len(),
    decreases entries.len(),
{
    reveal(Seq::filter);
    if entries.len() > 0 {
        law_counts_go_by_the_lowest_bit(entries.drop_last());
        law_marks_are_the_lowest_bits(entries.last().flags);
    }
}

/// Merging adds up the counts.
pub proof fn lemma_merged_counts(a: Gathered, b: Gathered)
    ensures
        file_entries(a.merged(b).entries) == file_entries(a.entries) + file_entries(b.entries),
        dir_entries(a.merged(b).entries) == dir_entries(a.entries) + dir_entries(b.entries),
{
    lemma_moved_counts(a.entries, b.entries, a.arena.len() as u32);
}

proof fn lemma_moved_counts(a: Seq<Entry>, b: Seq<Entry>, base: u32)
    ensures
        file_entries(a + moved_entries(b, base)) == file_entries(a) + file_entries(b),
        dir_entries(a + moved_entries(b, base)) == dir_entries(a) + dir_entries(b),
    decreases b.len(),
{
    let all = a + moved_entries(b, base);
    if b.len() == 0 {
        assert(all =~= a);
    } else {
        lemma_moved_counts(a, b.drop_last(), base);
        assert(all.drop_last() =~= a + moved_entries(b.drop_last(), base));
        assert(all.last().flags == b.last().flags);
    }
}

/// A number moved up by `base`, modulo its width.
pub open spec fn moved(x: u32, base: u32) -> u32 {
    (x + base) as u32
}

/// Every id moved up by `base`.
pub open spec fn moved_list(ids: Seq<u32>, base: u32) -> Seq<u32> {
    Seq::new(ids.len(), |i: int| moved(ids[i], base))
}

/// Every id of the pairs moved up by `base`.
pub open spec fn moved_extensions(
    pairs: Seq<(Seq<u8>, u32)>,
    base: u32,
) -> Seq<(Seq<u8>, u32)> {
    Seq::new(pairs.len(), |i: int| (pairs[i].0, moved(pairs[i].1, base)))
}

/// Every entry with its texts `base` bytes further up.
pub open spec fn moved_entries(entries: Seq<Entry>, base: u32) -> Seq<Entry> {
    Seq::new(entries.len(), |i: int| moved_entry(entries[i], base))
}

/// An entry whose texts lie `base` bytes further up.
pub open spec fn moved_entry(e: Entry, base: u32) -> Entry {
    Entry {
        name_off: moved(e.name_off, base),
        name_lower_off: moved(e.name_lower_off, base),
        path_off: moved(e.path_off, base),
        ..e
    }
}

/// Keeping a number modulo its width does not make it larger.
pub(crate) proof fn lemma_kept_is_no_larger(x: int)
    requires
        0 <= x <= u64::MAX,
    ensures
        (x as u32) <= x,
        x <= u32::MAX ==> (x as u32) == x,
{
    let y = x as u64;
    assert((y as u32) <= y) by (bit_vector);
}

proof fn lemma_added_well_formed(
    g: Gathered,
    name: Seq<u8>,
    lower: Seq<u8>,
    path: Seq<u8>,
    is_dir: bool,
    is_hidden: bool,
    size: u64,
    modified: u64,
)
    requires
        g.well_formed(),
        g.entries.len() < u64::MAX,
        g.arena.len() + name.len() + lower.len() + path.len() <= u64::MAX,
    ensures
        g.added(name, lower, path, is_dir, is_hidden, size, modified).well_formed(),
{
    let a = g.added(name, lower, path, is_dir, is_hidden, size, modified);
    let id = g.entries.len() as u32;
    lemma_kept_is_no_larger(g.entries.len() as int);
    lemma_kept_is_no_larger(g.arena.len() as int);
    lemma_kept_is_no_larger((g.arena.len() + name.len()) as int);
    lemma_kept_is_no_larger((g.arena.len() + name.len() + lower.len()) as int);
    lemma_kept_is_no_larger(path.len() as int);
    lemma_posted_members(g.postings, id, runs(trigrams(lower)));
    assert forall|t: u32, x: u32| #[trigger] list_at(a.postings, t).contains(x) implies x
        < a.entries.len() by {
        assert(list_at(g.postings, t).contains(x) || x == id);
    }
}

/// Adding an entry to a faithful builder keeps it faithful, and appends exactly the texts and
/// facts that were given, as long as the arena stays within 32-bit offsets and both names within
/// 16-bit lengths.
pub proof fn law_added_is_read_back(
    g: Gathered,
    name: Seq<u8>,
    lower: Seq<u8>,
    path: Seq<u8>,
    is_dir: bool,
    is_hidden: bool,
    size: u64,
    modified: u64,
)
    requires
        g.faithful(),
        g.entries.len() < u32::MAX,
        g.arena.len() + name.len() + lower.len() + path.len() <= u32::MAX,
        name.len() <= 0xffff,
        lower.len() <= 0xffff,
    ensures
        g.added(name, lower, path, is_dir, is_hidden, size, modified).faithful(),
        g.added(name, lower, path, is_dir, is_hidden, size, modified).records()
            == g.records().push(
            Record { name, lower, path, size, modified, flags: flags_of(is_dir, is_hidden) },
        ),
{
    let a = g.added(name, lower, path, is_dir, is_hidden, size, modified);
    let id = g.entries.len() as u32;
    let r = Record { name, lower, path, size, modified, flags: flags_of(is_dir, is_hidden) };
    lemma_added_well_formed(g, name, lower, path, is_dir, is_hidden, size, modified);
    lemma_flags_read_back(is_dir, is_hidden);
    lemma_posted_members(g.postings, id, runs(trigrams(lower)));
    lemma_runs_keep_values(trigrams(lower));
    assert(record_of(a.entries[id as int], a.arena) =~= r) by {
        assert(a.arena.subrange(g.arena.len() as int, (g.arena.len() + name.len()) as int)
            =~= name);
        assert(a.arena.subrange(
            (g.arena.len() + name.len()) as int,
            (g.arena.len() + name.len() + lower.len()) as int,
        ) =~= lower);
        assert(a.arena.subrange(
            (g.arena.len() + name.len() + lower.len()) as int,
            a.arena.len() as int,
        ) =~= path);
    }
    assert forall|i: int| 0 <= i < g.entries.len() implies #[trigger] a.records()[i]
        == g.records()[i] by {
        assert(in_arena(g.entries[i], g.arena.len() as int));
        lemma_record_in_prefix(g.entries[i], g.arena, name + lower + path);
        assert(g.arena + (name + lower + path) =~= a.arena);
    }
    assert(a.records() =~= g.records().push(r));
    assert forall|t: u32, x: u32| #[trigger] list_at(a.postings, t).contains(x) <==> x
        < a.entries.len() && trigrams(a.records()[x as int].lower).contains(t) by {
        assert(list_at(a.postings, t).contains(x) <==> list_at(g.postings, t).contains(x) || (x
            == id && runs(trigrams(lower)).contains(t)));
    }
    assert forall|ext: Seq<u8>, x: u32| #[trigger] a.extensions.contains((ext, x)) <==> x
        < a.entries.len() && indexed_extension(
        a.records()[x as int].lower,
        marks_dir(a.records()[x as int].flags),
    ) == Some(ext) by {
        assert(g.extensions.contains((ext, x)) <==> x < g.entries.len() && indexed_extension(
            g.records()[x as int].lower,
            marks_dir(g.records()[x as int].flags),
        ) == Some(ext));
        if let Some(new_ext) = indexed_extension(lower, is_dir) {
            lemma_push_contains(g.extensions, (new_ext, id), (ext, x));
        }
    }
}

/// The bytes that are kept of a name: the first 65535 at most.
pub open spec fn cut_short(name: Seq<u8>) -> Seq<u8> {
    if name.len() > 65535 {
        name.take(65535)
    } else {
        name
    }
}

/// A name that is too long is cut short and loses nothing else: what is read back of an added entry
/// are the first bytes of its names, its whole path, and its facts, and the entries before it stay
/// as they were.
pub proof fn law_long_names_are_cut_short(
    g: Gathered,
    name: Seq<u8>,
    lower: Seq<u8>,
    path: Seq<u8>,
    is_dir: bool,
    is_hidden: bool,
    size: u64,
    modified: u64,
)
    requires
        g.well_formed(),
        g.arena.len() + name.len() + lower.len() + path.len() <= u32::MAX,
    ensures
        g.added(name, lower, path, is_dir, is_hidden, size, modified).records()
            == g.records().push(
            Record {
                name: cut_short(name),
                lower: cut_short(lower),
                path,
                size,
                modified,
                flags: flags_of(is_dir, is_hidden),
            },
        ),
{
    let a = g.added(name, lower, path, is_dir, is_hidden, size, modified);
    let n = g.entries.len() as int;
    let e = a.entries[n];
    let start = g.arena.len() as int;
    assert(a.arena.subrange(start, start + e.name_len) =~= cut_short(name));
    assert(a.arena.subrange(
        start + name.len(),
        start + name.len() + e.name_lower_len,
    ) =~= cut_short(lower));
    assert(a.arena.subrange(
        start + name.len() + lower.len(),
        a.arena.len() as int,
    ) =~= path);
    assert forall|i: int| 0 <= i < n implies #[trigger] a.records()[i] == g.records()[i] by {
        assert(in_arena(g.entries[i], g.arena.len() as int));
        lemma_record_in_prefix(g.entries[i], g.arena, name + lower + path);
        assert(g.arena + (name + lower + path) =~= a.arena);
    }
    assert(a.records() =~= g.records().push(record_of(e, a.arena)));
}

/// Appending to the arena changes no record.
proof fn lemma_record_in_prefix(e: Entry, arena: Seq<u8>, more: Seq<u8>)
    requires
        in_arena(e, arena.len() as int),
    ensures
        record_of(e, arena + more) == record_of(e, arena),
{
    let all = arena + more;
    assert(all.subrange(e.name_off as int, e.name_off + e.name_len) =~= arena.subrange(
        e.name_off as int,
        e.name_off + e.name_len,
    ));
    assert(all.subrange(e.name_lower_off as int, e.name_lower_off + e.name_lower_len)
        =~= arena.subrange(e.name_lower_off as int, e.name_lower_off + e.name_lower_len));
    assert(all.subrange(e.path_off as int, e.path_off + e.path_len) =~= arena.subrange(
        e.path_off as int,
        e.path_off + e.path_len,
    ));
}

proof fn lemma_merged_well_formed(a: Gathered, b: Gathered)
    requires
        a.well_formed(),
        b.well_formed(),
        a.entries.len() + b.entries.len() <= u64::MAX,
        a.arena.len() + b.arena.len() <= u64::MAX,
    ensures
        a.merged(b).well_formed(),
{
    let m = a.merged(b);
    let arena_base = a.arena.len() as u32;
    let id_base = a.entries.len() as u32;
    lemma_kept_is_no_larger(a.arena.len() as int);
    lemma_kept_is_no_larger(a.entries.len() as int);
    assert forall|i: int| 0 <= i < m.entries.len() implies in_arena(
        #[trigger] m.entries[i],
        m.arena.len() as int,
    ) by {
        if i < a.entries.len() {
            assert(in_arena(a.entries[i], a.arena.len() as int));
        } else {
            let e = b.entries[i - a.entries.len()];
            assert(in_arena(e, b.arena.len() as int));
            lemma_kept_is_no_larger(e.name_off + arena_base);
            lemma_kept_is_no_larger(e.name_lower_off + arena_base);
            lemma_kept_is_no_larger(e.path_off + arena_base);
        }
    }
    assert forall|i: int| 0 <= i < m.extensions.len() implies (#[trigger] m.extensions[i]).1
        < m.entries.len() by {
        if i < a.extensions.len() {
            assert(a.extensions[i].1 < a.entries.len());
        } else {
            let x = b.extensions[i - a.extensions.len()];
            assert(x.1 < b.entries.len());
            lemma_kept_is_no_larger(x.1 + id_base);
        }
    }
    assert forall|t: u32, id: u32| #[trigger] list_at(m.postings, t).contains(id) implies id
        < m.entries.len() by {
        lemma_merged_list(a, b, t, id);
        if !list_at(a.postings, t).contains(id) {
            let x = choose|x: u32| #[trigger]
                list_at(b.postings, t).contains(x) && id == moved(x, id_base);
            assert(x < b.entries.len());
            lemma_kept_is_no_larger(x + id_base);
        }
    }
}

/// The list under a trigram after a merge.
proof fn lemma_merged_list(a: Gathered, b: Gathered, t: u32, id: u32)
    ensures
        list_at(a.merged(b).postings, t).contains(id) <==> list_at(a.postings, t).contains(id) || (
        exists|x: u32| #[trigger]
            list_at(b.postings, t).contains(x) && id == moved(x, a.entries.len() as u32)),
{
    let base = a.entries.len() as u32;
    let la = list_at(a.postings, t);
    let lb = list_at(b.postings, t);
    let shifted = moved_list(lb, base);
    let lm = list_at(a.merged(b).postings, t);
    assert(lm =~= la + shifted);
    if lm.contains(id) {
        let i = choose|i: int| 0 <= i < lm.len() && lm[i] == id;
        if i < la.len() {
            assert(la[i] == id);
        } else {
            let x = lb[i - la.len()];
            assert(lb.contains(x));
            assert(id == moved(x, base));
        }
    }
    if la.contains(id) {
        let i = choose|i: int| 0 <= i < la.len() && la[i] == id;
        assert(lm[i] == id);
    }
    if exists|x: u32| #[trigger] lb.contains(x) && id == moved(x, base) {
        let x = choose|x: u32| #[trigger] lb.contains(x) && id == moved(x, base);
        let i = choose|i: int| 0 <= i < lb.len() && lb[i] == x;
        assert(lm[la.len() + i] == id);
    }
}

/// Merging two faithful builders gives a faithful builder that holds the records of the first and
/// then those of the second, as long as the joint arena stays within 32-bit offsets.
pub proof fn law_merge_joins_records(a: Gathered, b: Gathered)
    requires
        a.faithful(),
        b.faithful(),
        a.entries.len() + b.entries.len() <= u32::MAX,
        a.arena.len() + b.arena.len() <= u32::MAX,
    ensures
        a.merged(b).faithful(),
        a.merged(b).records() == a.records() + b.records(),
{
    let m = a.merged(b);
    let id_base = a.entries.len() as u32;
    let n = a.entries.len();
    lemma_merged_well_formed(a, b);
    assert forall|i: int| 0 <= i < m.entries.len() implies #[trigger] m.records()[i] == (
    a.records() + b.records())[i] by {
        if i < n {
            assert(in_arena(a.entries[i], a.arena.len() as int));
            lemma_record_in_prefix(a.entries[i], a.arena, b.arena);
        } else {
            let e = b.entries[i - n];
            assert(in_arena(e, b.arena.len() as int));
            let f = m.entries[i];
            assert(m.arena.subrange(f.name_off as int, f.name_off + f.name_len)
                =~= b.arena.subrange(e.name_off as int, e.name_off + e.name_len));
            assert(m.arena.subrange(f.name_lower_off as int, f.name_lower_off + f.name_lower_len)
                =~= b.arena.subrange(
                e.name_lower_off as int,
                e.name_lower_off + e.name_lower_len,
            ));
            assert(m.arena.subrange(f.path_off as int, f.path_off + f.path_len)
                =~= b.arena.subrange(e.path_off as int, e.path_off + e.path_len));
        }
    }
    assert(m.records() =~= a.records() + b.records());
    assert forall|t: u32, id: u32| #[trigger] list_at(m.postings, t).contains(id) <==> id
        < m.entries.len() && trigrams(m.records()[id as int].lower).contains(t) by {
        lemma_merged_list(a, b, t, id);
        assert(list_at(a.postings, t).contains(id) <==> id < n && trigrams(
            a.records()[id as int].lower,
        ).contains(t));
        if n <= id < m.entries.len() {
            let x = (id - n) as u32;
            assert(list_at(b.postings, t).contains(x) <==> trigrams(
                b.records()[x as int].lower,
            ).contains(t));
            assert(moved(x, id_base) == id);
            assert(m.records()[id as int] == b.records()[x as int]);
        }
        if exists|x: u32| #[trigger]
            list_at(b.postings, t).contains(x) && id == moved(x, id_base) {
            let x = choose|x: u32| #[trigger]
                list_at(b.postings, t).contains(x) && id == moved(x, id_base);
            assert(x < b.entries.len());
            assert(id == x + n);
        }
        if id < n {
            assert(m.records()[id as int] == a.records()[id as int]);
        }
    }
    assert forall|ext: Seq<u8>, id: u32| #[trigger] m.extensions.contains((ext, id)) <==> id
        < m.entries.len() && indexed_extension(
        m.records()[id as int].lower,
        marks_dir(m.records()[id as int].flags),
    ) == Some(ext) by {
        if id < n {
            assert(m.records()[id as int] == a.records()[id as int]);
        } else if id < m.entries.len() {
            assert(m.records()[id as int] == b.records()[id - n]);
        }
        if m.extensions.contains((ext, id)) {
            let i = choose|i: int| 0 <= i < m.extensions.len() && m.extensions[i] == (ext, id);
            if i < a.extensions.len() {
                assert(a.extensions[i] == (ext, id));
                assert(a.extensions.contains((ext, id)));
            } else {
                let x = b.extensions[i - a.extensions.len()];
                assert(x.1 < b.entries.len());
                assert(id == x.1 + n);
                assert(x == (ext, (id - n) as u32));
                assert(b.extensions.contains((ext, (id - n) as u32)));
            }
        }
        if id < m.entries.len() && indexed_extension(
            m.records()[id as int].lower,
            marks_dir(m.records()[id as int].flags),
        ) == Some(ext) {
            if id < n {
                assert(a.extensions.contains((ext, id)));
                let i = choose|i: int| 0 <= i < a.extensions.len() && a.extensions[i] == (ext, id);
                assert(m.extensions[i] == (ext, id));
            } else {
                let x = (id - n) as u32;
                assert(b.extensions.contains((ext, x)));
                let i = choose|i: int| 0 <= i < b.extensions.len() && b.extensions[i] == (ext, x);
                assert(m.extensions[a.extensions.len() + i] == (ext, id));
            }
        }
    }
}

/// Keeping numbers modulo their width commutes with adding them.
proof fn lemma_kept_sum(x: int, y: int)
    requires
        0 <= x,
        0 <= y,
        x + y <= u64::MAX,
    ensures
        moved(y as u32, x as u32) == (x + y) as u32,
{
    let a = x as u64;
    let b = y as u64;
    let p = a as u32;
    let q = b as u32;
    assert((q + p) as u32 == (a + b) as u32) by (bit_vector)
        requires
            p == a as u32,
            q == b as u32,
    ;
}

/// Posting to the second of two merged maps is posting to the merged map.
proof fn lemma_posted_in_merged(
    a: Map<u32, Seq<u32>>,
    b: Map<u32, Seq<u32>>,
    base: u32,
    id: u32,
    keys: Seq<u32>,
)
    ensures
        posted(merged_lists(a, b, base), moved(id, base), keys) == merged_lists(
            a,
            posted(b, id, keys),
            base,
        ),
    decreases keys.len(),
{
    if keys.len() > 0 {
        let before = keys.drop_last();
        let key = keys.last();
        lemma_posted_in_merged(a, b, base, id, before);
        let rest = posted(b, id, before);
        let left = posted(merged_lists(a, b, base), moved(id, base), keys);
        let right = merged_lists(a, posted(b, id, keys), base);
        assert forall|t: u32| left.contains_key(t) implies #[trigger] left[t] == right[t] by {
            if t == key {
                assert(moved_list(list_at(rest, t).push(id), base) =~= moved_list(
                    list_at(rest, t),
                    base,
                ).push(moved(id, base)));
                assert(left[t] =~= right[t]);
            } else {
                assert(list_at(posted(b, id, keys), t) == list_at(rest, t));
            }
        }
        assert(left =~= right);
    }
}

/// Adding to the second of two merged builders is adding to the merged builder.
proof fn lemma_with_in_merged(a: Gathered, b: Gathered, item: Listed)
    requires
        a.entries.len() + b.entries.len() <= u64::MAX,
        a.arena.len() + b.arena.len() + item.name.len() + item.lower.len() <= u64::MAX,
    ensures
        a.merged(b).with(item) == a.merged(b.with(item)),
{
    let arena_base = a.arena.len() as u32;
    let id_base = a.entries.len() as u32;
    lemma_kept_sum(a.entries.len() as int, b.entries.len() as int);
    lemma_kept_sum(a.arena.len() as int, b.arena.len() as int);
    lemma_kept_sum(a.arena.len() as int, (b.arena.len() + item.name.len()) as int);
    lemma_kept_sum(
        a.arena.len() as int,
        (b.arena.len() + item.name.len() + item.lower.len()) as int,
    );
    lemma_posted_in_merged(
        a.postings,
        b.postings,
        id_base,
        b.entries.len() as u32,
        runs(trigrams(item.lower)),
    );
    let left = a.merged(b).with(item);
    let right = a.merged(b.with(item));
    assert(left.entries.last() == right.entries.last());
    assert(left.entries =~= right.entries);
    assert(left.arena =~= right.arena);
    assert(left.extensions =~= right.extensions);
    assert(left =~= right);
}

/// The bytes that the texts of some entries take.
pub open spec fn text_size(items: Seq<Listed>) -> nat
    decreases items.len(),
{
    if items.len() == 0 {
        0
    } else {
        text_size(items.drop_last()) + items.last().name.len() + items.last().lower.len()
            + items.last().path.len()
    }
}

/// How much a builder grows by some entries.
pub proof fn lemma_with_all_sizes(g: Gathered, items: Seq<Listed>)
    ensures
        g.with_all(items).entries.len() == g.entries.len() + items.len(),
        g.with_all(items).arena.len() == g.arena.len() + text_size(items),
    decreases items.len(),
{
    if items.len() > 0 {
        lemma_with_all_sizes(g, items.drop_last());
    }
}

/// Merging a builder that listed some entries into another is listing those entries there: the
/// parts of an index can be gathered separately and joined in order.
pub proof fn law_parts_join_as_one(a: Gathered, items: Seq<Listed>)
    requires
        a.entries.len() + items.len() <= u64::MAX,
        a.arena.len() + text_size(items) <= u64::MAX,
    ensures
        a.merged(Gathered::nothing().with_all(items)) == a.with_all(items),
    decreases items.len(),
{
    if items.len() == 0 {
        lemma_merged_with_nothing(a);
    } else {
        let rest = items.drop_last();
        let part = Gathered::nothing().with_all(rest);
        lemma_with_all_sizes(Gathered::nothing(), rest);
        law_parts_join_as_one(a, rest);
        lemma_with_in_merged(a, part, items.last());
    }
}

/// Merging an empty builder changes nothing.
proof fn lemma_merged_with_nothing(a: Gathered)
    ensures
        a.merged(Gathered::nothing()) == a,
{
    let m = a.merged(Gathered::nothing());
    let base = a.entries.len() as u32;
    assert(m.entries =~= a.entries);
    assert(m.arena =~= a.arena);
    assert(m.extensions =~= a.extensions);
    assert forall|t: u32| a.postings.contains_key(t) implies #[trigger] m.postings[t]
        == a.postings[t] by {
        assert(moved_list(Seq::<u32>::empty(), base) =~= Seq::<u32>::empty());
        assert(m.postings[t] =~= a.postings[t]);
    }
    assert(m.postings =~= a.postings);
    assert(m =~= a);
}

/// Adding one list of entries and then another is adding the joint list.
pub proof fn lemma_with_all_joined(g: Gathered, first: Seq<Listed>, second: Seq<Listed>)
    ensures
        g.with_all(first + second) == g.with_all(first).with_all(second),
    decreases second.len(),
{
    if second.len() == 0 {
        assert(first + second =~= first);
    } else {
        lemma_with_all_joined(g, first, second.drop_last());
        assert((first + second).drop_last() =~= first + second.drop_last());
    }
}

/// Listing entries in an empty builder makes it faithful and lets their records be read back in
/// order, as long as the arena stays within 32-bit offsets and every name within 16-bit lengths.
pub proof fn law_listed_are_read_back(items: Seq<Listed>)
    requires
        items_fit(items),
    ensures
        Gathered::nothing().with_all(items).faithful(),
        Gathered::nothing().with_all(items).records() == Seq::new(
            items.len(),
            |i: int| items[i].record(),
        ),
    decreases items.len(),
{
    let all = Gathered::nothing().with_all(items);
    if items.len() == 0 {
        assert(all.records() =~= Seq::new(items.len(), |i: int| items[i].record()));
    } else {
        let rest = items.drop_last();
        let item = items.last();
        let before = Gathered::nothing().with_all(rest);
        assert(forall|i: int| 0 <= i < rest.len() ==> rest[i] == items[i]);
        assert(items[items.len() - 1] == item);
        lemma_with_all_sizes(Gathered::nothing(), rest);
        lemma_with_all_sizes(Gathered::nothing(), items);
        law_listed_are_read_back(rest);
        law_added_is_read_back(
            before,
            item.name,
            item.lower,
            item.path,
            item.is_dir,
            item.is_hidden,
            item.size,
            item.modified,
        );
        assert(all.records() =~= Seq::new(items.len(), |i: int| items[i].record()));
    }
}

/// The pairs of extension and id that a list holds.
spec fn noted(list: Seq<(Vec<u8>, u32)>) -> Seq<(Seq<u8>, u32)> {
    Seq::new(list.len(), |i: int| (list[i].0@, list[i].1))
}

/// Gathers entries for an index.
pub struct IndexBuilder {
    entries: Vec<Entry>,
    arena: Vec<u8>,
    extensions: Vec<(Vec<u8>, u32)>,
    trigram: TrigramIndex,
}

impl View for IndexBuilder {
    type V = Gathered;

    closed spec fn view(&self) -> Gathered {
        Gathered {
            entries: self.entries@,
            arena: self.arena@,
            extensions: noted(self.extensions@),
            postings: self.trigram@,
        }
    }
}

impl IndexBuilder {
    /// An empty builder. The capacity is a hint.
    pub fn with_capacity(cap: usize) -> (builder: Self)
        ensures
            builder@ == Gathered::nothing(),
            builder@.faithful(),
    {
        let hint: usize = if cap < LARGEST_HINT {
            cap
        } else {
            LARGEST_HINT
        };
        let builder = IndexBuilder {
            entries: Vec::with_capacity(hint),
            arena: Vec::with_capacity(hint * 120),
            extensions: Vec::with_capacity(hint / 2),
            trigram: TrigramIndex::new(),
        };
        assert(builder@ =~= Gathered::nothing());
        builder
    }

    /// How many entries were added.
    pub fn entry_count(&self) -> (n: usize)
        ensures
            n == self@.entries.len(),
    {
        self.entries.len()
    }

    /// How many of the entries are files, and how many directories.
    pub fn count_entries(&self) -> (counts: (u64, u64))
        ensures
            counts.0 == file_entries(self@.entries),
            counts.1 == dir_entries(self@.entries),
    {
        let ghost all = self.entries@;
        let mut files: u64 = 0;
        let mut dirs: u64 = 0;
        let mut i: usize = 0;
        while i < self.entries.len()
            invariant
                i <= self.entries@.len(),
                all == self.entries@,
                files == file_entries(all.take(i as int)),
                dirs == dir_entries(all.take(i as int)),
                files + dirs == i,
            decreases self.entries@.len() - i,
        {
            assert(all.take(i + 1).drop_last() =~= all.take(i as int));
            if self.entries[i].is_dir() {
                dirs += 1;
            } else {
                files += 1;
            }
            i += 1;
        }
        assert(all.take(i as int) =~= all);
        (files, dirs)
    }

    /// Appends a text to the arena and tells its offset.
    fn intern(&mut self, s: &[u8]) -> (off: u32)
        ensures
            off == old(self)@.arena.len() as u32,
            final(self)@ == (Gathered { arena: old(self)@.arena + s@, ..old(self)@ }),
    {
        let off = #[verifier::truncate] (self.arena.len() as u32);
        append_bytes(&mut self.arena, s);
        off
    }

    /// Adds one entry whose path is text.
    pub fn add(
        &mut self,
        name: &str,
        path: &str,
        is_dir: bool,
        is_hidden: bool,
        size: u64,
        modified: u64,
    )
        requires
            old(self)@.well_formed(),
        ensures
            final(self)@ == old(self)@.added(
                name.spec_bytes(),
                lower_utf8(name@),
                path.spec_bytes(),
                is_dir,
                is_hidden,
                size,
                modified,
            ),
            final(self)@.well_formed(),
            final(self)@.entries.len() <= usize::MAX,
    {
        self.add_inner(name, path.as_bytes(), is_dir, is_hidden, size, modified);
    }

    /// Adds one entry whose path is given as bytes.
    pub fn add_from_bytes(
        &mut self,
        name: &str,
        path_bytes: &[u8],
        is_dir: bool,
        is_hidden: bool,
        size: u64,
        modified: u64,
    )
        requires
            old(self)@.well_formed(),
        ensures
            final(self)@ == old(self)@.added(
                name.spec_bytes(),
                lower_utf8(name@),
                path_bytes@,
                is_dir,
                is_hidden,
                size,
                modified,
            ),
            final(self)@.well_formed(),
            final(self)@.entries.len() <= usize::MAX,
    {
        self.add_inner(name, path_bytes, is_dir, is_hidden, size, modified);
    }

    fn add_inner(
        &mut self,
        name: &str,
        path_bytes: &[u8],
        is_dir: bool,
        is_hidden: bool,
        size: u64,
        modified: u64,
    )
        requires
            old(self)@.well_formed(),
        ensures
            final(self)@ == old(self)@.added(
                name.spec_bytes(),
                lower_utf8(name@),
                path_bytes@,
                is_dir,
                is_hidden,
                size,
                modified,
            ),
            final(self)@.well_formed(),
            final(self)@.entries.len() <= usize::MAX,
    {
        let lower = lower_bytes(name);
        self.add_lowered(
            name.as_bytes(),
            lower.as_slice(),
            path_bytes,
            is_dir,
            is_hidden,
            size,
            modified,
        );
    }

    /// Adds one entry whose lower case name is known already.
    pub fn add_lowered(
        &mut self,
        name_bytes: &[u8],
        lower: &[u8],
        path_bytes: &[u8],
        is_dir: bool,
        is_hidden: bool,
        size: u64,
        modified: u64,
    )
        requires
            old(self)@.well_formed(),
        ensures
            final(self)@ == old(self)@.added(
                name_bytes@,
                lower@,
                path_bytes@,
                is_dir,
                is_hidden,
                size,
                modified,
            ),
            final(self)@.well_formed(),
            final(self)@.entries.len() <= usize::MAX,
    {
        let id = #[verifier::truncate] (self.entries.len() as u32);
        let name_off = self.intern(name_bytes);
        let name_len = clip_len(name_bytes.len());

        let name_lower_off = self.intern(lower);
        let name_lower_len = clip_len(lower.len());
        self.trigram.insert(id, lower);

        let path_off = self.intern(path_bytes);
        let path_len = #[verifier::truncate] (path_bytes.len() as u32);
        let flags = make_flags(is_dir, is_hidden);
        self.entries.push(
            Entry {
                name_off,
                name_len,
                name_lower_off,
                name_lower_len,
                path_off,
                path_len,
                size,
                modified,
                flags,
            },
        );

        if !is_dir {
            if let Some(dot) = find_last_dot(lower) {
                assert(dot < lower.len());
                let ext = vstd::slice::slice_subrange(lower, dot + 1, lower.len());
                assert(ext@ =~= lower@.skip(dot + 1));
                if ext.len() > 0 && ext.len() <= LONGEST_EXTENSION {
                    self.extensions.push((vstd::slice::slice_to_vec(ext), id));
                }
            }
        }
        proof {
            assert(self.arena@.len() == self.arena.len());
            assert(self.entries@.len() == self.entries.len());
            lemma_added_well_formed(
                old(self)@,
                name_bytes@,
                lower@,
                path_bytes@,
                is_dir,
                is_hidden,
                size,
                modified,
            );
            assert(self@ =~= old(self)@.added(
                name_bytes@,
                lower@,
                path_bytes@,
                is_dir,
                is_hidden,
                size,
                modified,
            ));
        }
    }

    /// Takes in all that another builder gathered, behind what is here already.
    pub fn merge(&mut self, other: IndexBuilder)
        requires
            old(self)@.well_formed(),
            other@.well_formed(),
        ensures
            final(self)@ == old(self)@.merged(other@),
            final(self)@.well_formed(),
            final(self)@.entries.len() <= usize::MAX,
            final(self)@.arena.len() <= usize::MAX,
    {
        let ghost a = self@;
        let ghost b = other@;
        let base_id = #[verifier::truncate] (self.entries.len() as u32);
        let arena_base = #[verifier::truncate] (self.arena.len() as u32);
        let IndexBuilder { entries, arena, extensions, trigram } = other;

        append_bytes(&mut self.arena, arena.as_slice());

        let mut i: usize = 0;
        while i < entries.len()
            invariant
                i <= entries@.len(),
                self.entries@ == a.entries + moved_entries(entries@.take(i as int), arena_base),
                self.arena@ == a.arena + arena@,
                self.extensions == old(self).extensions,
                self.trigram@ == a.postings,
            decreases entries@.len() - i,
        {
            let mut entry = entries[i];
            entry.name_off = shift(entry.name_off, arena_base);
            entry.name_lower_off = shift(entry.name_lower_off, arena_base);
            entry.path_off = shift(entry.path_off, arena_base);
            self.entries.push(entry);
            assert(self.entries@ =~= a.entries + moved_entries(
                entries@.take(i + 1),
                arena_base,
            ));
            i += 1;
        }
        assert(entries@.take(i as int) =~= entries@);

        let ghost pairs = extensions@;
        for pair in it: extensions
            invariant
                it.seq() == pairs,
                noted(self.extensions@) == a.extensions + moved_extensions(
                    noted(pairs.take(it.index() as int)),
                    base_id,
                ),
                self.entries@ == a.entries + moved_entries(entries@, arena_base),
                self.arena@ == a.arena + arena@,
                self.trigram@ == a.postings,
        {
            let (ext, id) = pair;
            let ghost k = it.index() as int;
            let ghost before = noted(self.extensions@);
            let ghost taken = noted(pairs.take(k));
            let ghost one = (ext@, moved(id, base_id));
            assert(noted(pairs.take(k + 1)) =~= taken.push((ext@, id)));
            self.extensions.push((ext, shift(id, base_id)));
            assert(noted(self.extensions@) =~= before.push(one));
            assert(moved_extensions(taken.push((one.0, id)), base_id) =~= moved_extensions(
                taken,
                base_id,
            ).push(one));
        }
        assert(pairs.take(pairs.len() as int) =~= pairs);

        let lists = into_posting_pairs(trigram.take_posting());
        let ghost lists_seq = lists@;
        for pair in it: lists
            invariant
                it.seq() == lists_seq,
                lists_pairs(lists_seq, b.postings),
                self.entries@ == a.entries + moved_entries(entries@, arena_base),
                self.arena@ == a.arena + arena@,
                noted(self.extensions@) == a.extensions + moved_extensions(noted(pairs), base_id),
                merged_up_to(a.postings, lists_seq, base_id, it.index() as int, self.trigram@),
        {
            let (tri, ids) = pair;
            let ghost k = it.index() as int;
            let ghost before = self.trigram@;
            let shifted = shift_all(&ids, base_id);
            self.trigram.merge_posting(tri, shifted);
            proof {
                let now = self.trigram@;
                assert(lists_seq[k].0 == tri);
                assert(list_at(before, tri) == list_at(a.postings, tri));
                assert forall|j: int| 0 <= j < k + 1 implies now.contains_key(
                    (#[trigger] lists_seq[j]).0,
                ) && now[lists_seq[j].0] == list_at(a.postings, lists_seq[j].0) + moved_list(
                    lists_seq[j].1@,
                    base_id,
                ) by {
                    if j < k {
                        assert(lists_seq[j].0 != lists_seq[k].0);
                    }
                }
                assert forall|t: u32|
                    #![trigger now.contains_key(t)]
                    #![trigger list_at(a.postings, t)]
                    !key_among(lists_seq, k + 1, t) implies (now.contains_key(t)
                    <==> a.postings.contains_key(t)) && list_at(now, t) == list_at(
                    a.postings,
                    t,
                ) by {
                    assert(lists_seq[k].0 != t);
                    assert(!key_among(lists_seq, k, t));
                    assert(list_at(before, t) == list_at(a.postings, t));
                }
                assert(merged_up_to(a.postings, lists_seq, base_id, k + 1, now));
            }
        }
        proof {
            lemma_merged_all(a, b, lists_seq, base_id, self.trigram@);
            assert(self@ =~= a.merged(b));
            assert(self.arena@.len() == self.arena.len());
            assert(self.entries@.len() == self.entries.len());
            lemma_merged_well_formed(a, b);
        }
    }

    /// Makes the index.
    pub fn finalize(self) -> (index: Index)
        requires
            self@.well_formed(),
        ensures
            finished(self@, index),
            index.well_formed(),
            index.records() == self@.records(),
            self@.faithful() ==> index.faithful(),
    {
        let ghost g = self@;
        let IndexBuilder { entries, arena, extensions, trigram } = self;
        let mut trigram = trigram;
        let ghost pairs = extensions@;
        let mut ext_map: AHashMap<Box<[u8]>, Vec<u32>> = new_extension_map(256);
        assert(noted(pairs.take(0)) =~= Seq::<(Seq<u8>, u32)>::empty());
        for pair in it: extensions
            invariant
                it.seq() == pairs,
                grouped(noted(pairs.take(it.index() as int)), extension_lists(ext_map)),
        {
            let (ext, id) = pair;
            let ghost k = it.index() as int;
            proof {
                assert(noted(pairs.take(k + 1)) =~= noted(pairs.take(k)).push((ext@, id)));
                lemma_grouped_push(
                    noted(pairs.take(k)),
                    extension_lists(ext_map),
                    ext@,
                    id,
                );
            }
            let list = extension_list_mut(&mut ext_map, ext.as_slice());
            list.push(id);
        }
        assert(pairs.take(pairs.len() as int) =~= pairs);

        let ghost unsorted = extension_lists(ext_map);
        let keys = extension_keys(&ext_map);
        let mut i: usize = 0;
        while i < keys.len()
            invariant
                i <= keys@.len(),
                lists_extensions(keys@, unsorted),
                extension_lists(ext_map).dom() == unsorted.dom(),
                forall|j: int|
                    0 <= j < i ==> sorted_set_of(
                        extension_lists(ext_map)[(#[trigger] keys@[j])@],
                        unsorted[keys@[j]@],
                    ),
                forall|j: int|
                    i <= j < keys@.len() ==> extension_lists(ext_map)[(#[trigger] keys@[j])@]
                        == unsorted[keys@[j]@],
            decreases keys@.len() - i,
        {
            let ghost before = extension_lists(ext_map);
            assert(before.dom().contains(keys@[i as int]@));
            let list = extension_list_mut(&mut ext_map, keys[i].as_slice());
            sort_dedup(list);
            proof {
                assert(extension_lists(ext_map).dom() =~= before.dom());
            }
            i += 1;
        }
        trigram.finalize();
        let index = Index { entries, arena, ext_map, trigram };
        proof {
            let lists = extension_lists(index.ext_map);
            assert forall|ext: Seq<u8>|
                #![trigger lists.contains_key(ext)]
                lists.contains_key(ext) implies unsorted.contains_key(ext) && sorted_set_of(
                lists[ext],
                unsorted[ext],
            ) by {
                assert(lists.dom().contains(ext));
                assert(unsorted.contains_key(ext));
                let j = choose|j: int| 0 <= j < keys@.len() && (#[trigger] keys@[j])@ == ext;
                assert(sorted_set_of(lists[keys@[j]@], unsorted[keys@[j]@]));
            }
            assert forall|ext: Seq<u8>, id: u32| #[trigger] ids_at(lists, ext).contains(id)
                <==> g.extensions.contains((ext, id)) by {
                assert(ids_at(unsorted, ext).contains(id) <==> g.extensions.contains((ext, id)));
                if lists.contains_key(ext) {
                    assert(lists[ext].contains(id) <==> unsorted[ext].contains(id));
                } else {
                    assert(!unsorted.dom().contains(ext));
                }
            }
            assert(finished(g, index));
            law_finished_index(g, index);
        }
        index
    }
}

/// The lists under each extension are made of the ids noted with it.
pub open spec fn grouped(pairs: Seq<(Seq<u8>, u32)>, lists: Map<Seq<u8>, Seq<u32>>) -> bool {
    &&& forall|ext: Seq<u8>, id: u32| #[trigger]
        ids_at(lists, ext).contains(id) <==> pairs.contains((ext, id))
    &&& forall|ext: Seq<u8>| #[trigger]
        lists.contains_key(ext) ==> exists|id: u32| #[trigger] pairs.contains((ext, id))
}

proof fn lemma_grouped_push(
    pairs: Seq<(Seq<u8>, u32)>,
    lists: Map<Seq<u8>, Seq<u32>>,
    ext: Seq<u8>,
    id: u32,
)
    requires
        grouped(pairs, lists),
    ensures
        grouped(pairs.push((ext, id)), lists.insert(ext, ids_at(lists, ext).push(id))),
{
    let more = pairs.push((ext, id));
    let now = lists.insert(ext, ids_at(lists, ext).push(id));
    assert forall|e: Seq<u8>, x: u32| #[trigger] ids_at(now, e).contains(x) <==> more.contains(
        (e, x),
    ) by {
        lemma_push_contains(pairs, (ext, id), (e, x));
        assert(ids_at(lists, e).contains(x) <==> pairs.contains((e, x)));
        if e == ext {
            lemma_push_contains(ids_at(lists, ext), id, x);
        } else {
            assert(ids_at(now, e) == ids_at(lists, e));
        }
    }
    assert forall|e: Seq<u8>| #[trigger] now.contains_key(e) implies exists|x: u32| #[trigger]
        more.contains((e, x)) by {
        if e == ext {
            lemma_push_contains(pairs, (ext, id), (ext, id));
            assert(more.contains((e, id)));
        } else {
            assert(lists.contains_key(e));
            let x = choose|x: u32| #[trigger] pairs.contains((e, x));
            lemma_push_contains(pairs, (ext, id), (e, x));
            assert(more.contains((e, x)));
        }
    }
}

/// `index` is what `g` makes: the entries and their texts as gathered, and each list of ids sorted
/// with one of each.
pub open spec fn finished(g: Gathered, index: Index) -> bool {
    &&& index.entries@ == g.entries
    &&& index.arena@ == g.arena
    &&& index.trigram@.dom() == g.postings.dom()
    &&& forall|t: u32| #[trigger]
        index.trigram@.contains_key(t) ==> sorted_set_of(index.trigram@[t], g.postings[t])
    &&& grouped(g.extensions, extension_lists(index.ext_map))
    &&& forall|ext: Seq<u8>|
        #![trigger extension_lists(index.ext_map).contains_key(ext)]
        extension_lists(index.ext_map).contains_key(ext) ==> strictly_ascending(
            extension_lists(index.ext_map)[ext],
        )
}

/// The listed entries fit: the arena stays within 32-bit offsets and every name within 16-bit
/// lengths.
pub open spec fn items_fit(items: Seq<Listed>) -> bool {
    &&& items.len() <= u32::MAX
    &&& text_size(items) <= u32::MAX
    &&& forall|i: int|
        0 <= i < items.len() ==> (#[trigger] items[i]).name.len() <= 0xffff && items[i].lower.len()
            <= 0xffff
}

/// An index made of listed entries that fit holds their records in order and is faithful to them.
pub proof fn law_index_of_listed(items: Seq<Listed>, index: Index)
    requires
        items_fit(items),
        finished(Gathered::nothing().with_all(items), index),
    ensures
        index.faithful(),
        index.records() == Seq::new(items.len(), |i: int| items[i].record()),
{
    law_listed_are_read_back(items);
    law_finished_index(Gathered::nothing().with_all(items), index);
}

/// A finished index is well formed, holds the records that were gathered, and is faithful where
/// the builder was.
pub proof fn law_finished_index(g: Gathered, index: Index)
    requires
        g.well_formed(),
        finished(g, index),
    ensures
        index.well_formed(),
        index.records() == g.records(),
        g.faithful() ==> index.faithful(),
{
    assert forall|t: u32, id: u32| #[trigger] list_at(index.trigram@, t).contains(id) <==> list_at(
        g.postings,
        t,
    ).contains(id) by {
        if index.trigram@.contains_key(t) {
            assert(g.postings.dom().contains(t));
            assert(index.trigram@[t].contains(id) <==> g.postings[t].contains(id));
        } else {
            assert(!g.postings.dom().contains(t));
        }
    }
    assert forall|ext: Seq<u8>, id: u32| #[trigger]
        ids_at(extension_lists(index.ext_map), ext).contains(id) implies id
        < index.entries@.len() by {
        assert(g.extensions.contains((ext, id)));
        let i = choose|i: int| 0 <= i < g.extensions.len() && g.extensions[i] == (ext, id);
        assert(g.extensions[i].1 < g.entries.len());
    }
}

/// The lists after the first `n` of `pairs` were merged into `lists`.
spec fn merged_up_to(
    lists: Map<u32, Seq<u32>>,
    pairs: Seq<(u32, Vec<u32>)>,
    base: u32,
    n: int,
    now: Map<u32, Seq<u32>>,
) -> bool {
    &&& forall|j: int|
        0 <= j < n ==> now.contains_key((#[trigger] pairs[j]).0) && now[pairs[j].0] == list_at(
            lists,
            pairs[j].0,
        ) + moved_list(pairs[j].1@, base)
    &&& forall|t: u32|
        #![trigger now.contains_key(t)]
        #![trigger list_at(lists, t)]
        !key_among(pairs, n, t) ==> (now.contains_key(t) <==> lists.contains_key(t)) && list_at(
            now,
            t,
        ) == list_at(lists, t)
}

/// One of the first `n` pairs has the key `t`.
spec fn key_among(pairs: Seq<(u32, Vec<u32>)>, n: int, t: u32) -> bool {
    exists|j: int| 0 <= j < n && (#[trigger] pairs[j]).0 == t
}

proof fn lemma_merged_all(
    a: Gathered,
    b: Gathered,
    pairs: Seq<(u32, Vec<u32>)>,
    base: u32,
    now: Map<u32, Seq<u32>>,
)
    requires
        lists_pairs(pairs, b.postings),
        merged_up_to(a.postings, pairs, base, pairs.len() as int, now),
        base == a.entries.len() as u32,
    ensures
        now == a.merged(b).postings,
{
    let m = a.merged(b).postings;
    assert forall|t: u32| now.contains_key(t) <==> #[trigger] m.contains_key(t) by {
        if b.postings.contains_key(t) {
            let j = choose|j: int| 0 <= j < pairs.len() && (#[trigger] pairs[j]).0 == t;
            assert(now.contains_key(pairs[j].0));
        } else {
            assert(!key_among(pairs, pairs.len() as int, t));
            assert(list_at(now, t) == list_at(a.postings, t));
        }
    }
    assert forall|t: u32| #[trigger] m.contains_key(t) implies now[t] == m[t] by {
        if b.postings.contains_key(t) {
            let j = choose|j: int| 0 <= j < pairs.len() && (#[trigger] pairs[j]).0 == t;
            assert(now[pairs[j].0] == list_at(a.postings, t) + moved_list(pairs[j].1@, base));
        } else {
            assert(!key_among(pairs, pairs.len() as int, t));
            assert(list_at(now, t) == list_at(a.postings, t));
            assert(moved_list(list_at(b.postings, t), base) =~= Seq::<u32>::empty());
            assert(m[t] =~= list_at(a.postings, t));
        }
    }
    assert(now =~= m);
}

/// Every id moved up.
fn shift_all(ids: &Vec<u32>, base: u32) -> (shifted: Vec<u32>)
    ensures
        shifted@ == moved_list(ids@, base),
{
    let mut shifted: Vec<u32> = Vec::with_capacity(ids.len());
    let mut i: usize = 0;
    while i < ids.len()
        invariant
            i <= ids@.len(),
            shifted@ == moved_list(ids@.take(i as int), base),
        decreases ids@.len() - i,
    {
        shifted.push(shift(ids[i], base));
        assert(shifted@ =~= moved_list(ids@.take(i + 1), base));
        i += 1;
    }
    assert(ids@.take(i as int) =~= ids@);
    shifted
}

/// A number moved up, modulo its width.
fn shift(x: u32, base: u32) -> (y: u32)
    ensures
        y == moved(x, base),
{
    assert(x + base > u32::MAX ==> ((x + base) as u32) == x + base - 0x1_0000_0000) by (bit_vector);
    x.wrapping_add(base)
}

/// At most as many bytes as a name length can tell.
pub(crate) fn clip_len(len: usize) -> (clipped_len: u16)
    ensures
        clipped_len == clipped(len as int),
{
    if len < 0xffff {
        len as u16
    } else {
        0xffff
    }
}

} // verus!
