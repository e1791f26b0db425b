//! The finished index.

use crate::index::entry::{marks_dir, Entry};
use crate::index::extension_map::{
    extension_keys, extension_list, extension_lists, ids_at, lists_extensions,
};
use crate::index::posting_map::list_at;
use crate::index::trigram::{trigrams, TrigramIndex};
use crate::sorting::{strictly_ascending, Keyed};
use crate::text::utf8_text;
use ahash::AHashMap;
use arc_swap::ArcSwap;
use std::sync::Arc;
use vstd::prelude::*;
use vstd::string::StringSliceAdditionalSpecFns;
use vstd::utf8::valid_utf8;

verus! {

/// What the index knows of one file or directory.
pub struct Record {
    pub name: Seq<u8>,
    pub lower: Seq<u8>,
    pub path: Seq<u8>,
    pub size: u64,
    pub modified: u64,
    pub flags: u16,
}

/// The texts of the entry lie inside an arena of this length.
pub open spec fn in_arena(e: Entry, arena_len: int) -> bool {
    &&& e.name_off + e.name_len <= arena_len
    &&& e.name_lower_off + e.name_lower_len <= arena_len
    &&& e.path_off + e.path_len <= arena_len
}

/// The entry with its texts read out of the arena.
pub open spec fn record_of(e: Entry, arena: Seq<u8>) -> Record {
    Record {
        name: arena.subrange(e.name_off as int, e.name_off + e.name_len),
        lower: arena.subrange(e.name_lower_off as int, e.name_lower_off + e.name_lower_len),
        path: arena.subrange(e.path_off as int, e.path_off + e.path_len),
        size: e.size,
        modified: e.modified,
        flags: e.flags,
    }
}

/// The records of some entries, in order.
pub open spec fn records_of(entries: Seq<Entry>, arena: Seq<u8>) -> Seq<Record> {
    Seq::new(entries.len(), |i: int| record_of(entries[i], arena))
}

/// The place of the last dot.
pub open spec fn last_dot(name: Seq<u8>) -> Option<int>
    decreases name.len(),
{
    if name.len() == 0 {
        None
    } else if name.last() == 0x2e {
        Some(name.len() - 1)
    } else {
        last_dot(name.drop_last())
    }
}

/// What follows the last dot of a name, where it has a dot.
pub open spec fn extension_of(name: Seq<u8>) -> Option<Seq<u8>> {
    match last_dot(name) {
        Some(dot) => Some(name.skip(dot + 1)),
        None => None,
    }
}

/// The longest extension that the extension map holds, in bytes.
pub const LONGEST_EXTENSION: usize = 12;

/// The extension under which an entry stands in the extension map: directories, and names whose
/// extension is missing, empty or too long, stand under none.
pub open spec fn indexed_extension(lower: Seq<u8>, is_dir: bool) -> Option<Seq<u8>> {
    match extension_of(lower) {
        Some(ext) => if !is_dir && 0 < ext.len() <= LONGEST_EXTENSION {
            Some(ext)
        } else {
            None
        },
        None => None,
    }
}

/// No byte is a dot.
pub open spec fn has_no_dot(bytes: Seq<u8>) -> bool {
    forall|i: int| 0 <= i < bytes.len() ==> #[trigger] bytes[i] != 0x2e
}

/// A name without a dot has no extension. Any other is a stem, a dot and an extension without a
/// dot, which is its extension however many dots the stem has.
pub proof fn law_extension_follows_the_last_dot(stem: Seq<u8>, ext: Seq<u8>)
    requires
        has_no_dot(ext),
    ensures
        extension_of(stem + seq![0x2eu8] + ext) == Some(ext),
        extension_of(ext) is None,
    decreases ext.len(),
{
    let name = stem + seq![0x2eu8] + ext;
    if ext.len() == 0 {
        assert(name.last() == 0x2e);
        assert(name.skip(name.len() as int) =~= ext);
    } else {
        let shorter = ext.drop_last();
        assert(ext[ext.len() - 1] != 0x2e);
        assert forall|i: int| 0 <= i < shorter.len() implies #[trigger] shorter[i] != 0x2e by {
            assert(shorter[i] == ext[i]);
        }
        law_extension_follows_the_last_dot(stem, shorter);
        assert(name.drop_last() =~= stem + seq![0x2eu8] + shorter);
        lemma_last_dot(name.drop_last());
        let dot = last_dot(name.drop_last())->Some_0;
        assert(name.drop_last().skip(dot + 1).len() == shorter.len());
        assert(name.skip(dot + 1) =~= ext);
    }
}

/// The extension map holds a file under the extension of its name where that has one to twelve
/// bytes, and under nothing else; it holds no directory.
pub proof fn law_short_extensions_are_indexed(stem: Seq<u8>, ext: Seq<u8>)
    requires
        has_no_dot(ext),
    ensures
        1 <= ext.len() <= 12 ==> indexed_extension(stem + seq![0x2eu8] + ext, false) == Some(ext),
        ext.len() == 0 || ext.len() > 12 ==> indexed_extension(
            stem + seq![0x2eu8] + ext,
            false,
        ) is None,
        indexed_extension(ext, false) is None,
        indexed_extension(stem + seq![0x2eu8] + ext, true) is None,
        indexed_extension(ext, true) is None,
{
    law_extension_follows_the_last_dot(stem, ext);
}

/// The last dot is a dot, and none follows it.
pub proof fn lemma_last_dot(name: Seq<u8>)
    ensures
        match last_dot(name) {
            Some(dot) => {
                &&& 0 <= dot < name.len()
                &&& name[dot] == 0x2e
                &&& forall|i: int| dot < i < name.len() ==> #[trigger] name[i] != 0x2e
            },
            None => has_no_dot(name),
        },
    decreases name.len(),
{
    if name.len() > 0 && name.last() != 0x2e {
        let rest = name.drop_last();
        lemma_last_dot(rest);
        let from = match last_dot(rest) {
            Some(dot) => dot,
            None => -1,
        };
        assert forall|i: int| from < i < name.len() implies #[trigger] name[i] != 0x2e by {
            if i < rest.len() {
                assert(rest[i] == name[i]);
            }
        }
    }
}

/// The entries with their texts, and what can be looked up of them.
pub struct Index {
    pub entries: Vec<Entry>,
    pub arena: Vec<u8>,
    pub ext_map: AHashMap<Box<[u8]>, Vec<u32>>,
    pub trigram: TrigramIndex,
}

impl Index {
    /// Every text lies inside the arena, every list names entries only, and the lists under the
    /// trigrams are strictly ascending.
    pub open spec fn well_formed(&self) -> bool {
        &&& forall|i: int|
            0 <= i < self.entries@.len() ==> in_arena(
                #[trigger] self.entries@[i],
                self.arena@.len() as int,
            )
        &&& self.trigram.finalized()
        &&& forall|t: u32, id: u32| #[trigger]
            list_at(self.trigram@, t).contains(id) ==> id < self.entries@.len()
        &&& self.extensions_name_entries()
    }

    /// The lists under the extensions name entries only.
    pub open spec fn extensions_name_entries(&self) -> bool {
        forall|ext: Seq<u8>, id: u32| #[trigger]
            ids_at(extension_lists(self.ext_map), ext).contains(id) ==> id < self.entries@.len()
    }

    /// The records, in the order of their ids.
    pub open spec fn records(&self) -> Seq<Record> {
        records_of(self.entries@, self.arena@)
    }

    /// An index whose lists say of its entries exactly what their names hold.
    pub open spec fn faithful(&self) -> bool {
        &&& self.well_formed()
        &&& self.entries@.len() <= u32::MAX
        &&& forall|t: u32, id: u32| #[trigger]
            list_at(self.trigram@, t).contains(id) <==> id < self.entries@.len() && trigrams(
                self.records()[id as int].lower,
            ).contains(t)
        &&& forall|ext: Seq<u8>, id: u32| #[trigger]
            ids_at(extension_lists(self.ext_map), ext).contains(id) <==> id < self.entries@.len()
                && indexed_extension(
                self.records()[id as int].lower,
                marks_dir(self.records()[id as int].flags),
            ) == Some(ext)
    }

    /// The bytes of the arena from `off` on.
    pub fn get_bytes(&self, off: u32, len: usize) -> (bytes: &[u8])
        requires
            off + len <= self.arena@.len(),
        ensures
            bytes@ == self.arena@.subrange(off as int, off + len),
    {
        let arena = self.arena.as_slice();
        assert(off + len <= arena.len());
        vstd::slice::slice_subrange(arena, off as usize, off as usize + len)
    }

    /// The text of the arena from `off` on.
    pub fn get_str(&self, off: u32, len: usize) -> (text: &str)
        requires
            off + len <= self.arena@.len(),
            valid_utf8(self.arena@.subrange(off as int, off + len)),
        ensures
            text.spec_bytes() == self.arena@.subrange(off as int, off + len),
    {
        match utf8_text(self.get_bytes(off, len)) {
            Some(text) => text,
            None => {
                assert(false);
                ""
            },
        }
    }

    /// The name of an entry.
    pub fn entry_name(&self, e: &Entry) -> (name: &str)
        requires
            in_arena(*e, self.arena@.len() as int),
            valid_utf8(record_of(*e, self.arena@).name),
        ensures
            name.spec_bytes() == record_of(*e, self.arena@).name,
    {
        self.get_str(e.name_off, e.name_len as usize)
    }

    /// The lower case name of an entry.
    pub fn entry_name_lower(&self, e: &Entry) -> (lower: &[u8])
        requires
            in_arena(*e, self.arena@.len() as int),
        ensures
            lower@ == record_of(*e, self.arena@).lower,
    {
        self.get_bytes(e.name_lower_off, e.name_lower_len as usize)
    }

    /// The path of an entry.
    pub fn entry_path(&self, e: &Entry) -> (path: &str)
        requires
            in_arena(*e, self.arena@.len() as int),
            valid_utf8(record_of(*e, self.arena@).path),
        ensures
            path.spec_bytes() == record_of(*e, self.arena@).path,
    {
        self.get_str(e.path_off, e.path_len as usize)
    }

    /// Whether the lists under the extensions name entries only.
    fn has_sound_extensions(&self) -> (b: bool)
        ensures
            b == self.extensions_name_entries(),
    {
        let keys = extension_keys(&self.ext_map);
        let ghost lists = extension_lists(self.ext_map);
        let mut i: usize = 0;
        while i < keys.len()
            invariant
                i <= keys@.len(),
                lists == extension_lists(self.ext_map),
                lists_extensions(keys@, lists),
                forall|j: int|
                    0 <= j < i ==> all_below(
                        lists[(#[trigger] keys@[j])@],
                        self.entries@.len() as int,
                    ),
            decreases keys@.len() - i,
        {
            assert(lists.contains_key(keys@[i as int]@));
            if let Some(ids) = extension_list(&self.ext_map, keys[i].as_slice()) {
                if !are_below(ids.as_slice(), self.entries.len()) {
                    proof {
                        let ext = keys@[i as int]@;
                        let n = self.entries@.len();
                        assert(ids_at(lists, ext) == ids@);
                        let id = choose|id: u32| #[trigger] ids@.contains(id) && id >= n;
                        assert(ids_at(lists, ext).contains(id));
                    }
                    return false;
                }
            }
            i += 1;
        }
        assert forall|ext: Seq<u8>| lists.contains_key(ext) implies all_below(
            #[trigger] lists[ext],
            self.entries@.len() as int,
        ) by {
            let j = choose|j: int| 0 <= j < keys@.len() && (#[trigger] keys@[j])@ == ext;
            assert(keys@[j]@ == ext);
        }
        assert forall|ext: Seq<u8>, id: u32| #[trigger] ids_at(lists, ext).contains(id) implies id
            < self.entries@.len() by {
            assert(all_below(lists[ext], self.entries@.len() as int));
        }
        true
    }

    /// Whether the index is well formed.
    pub fn is_well_formed(&self) -> (b: bool)
        ensures
            b == self.well_formed(),
    {
        if !self.trigram.is_sound(self.entries.len()) || !self.has_sound_extensions() {
            return false;
        }
        let arena_len: usize = self.arena.len();
        let mut i: usize = 0;
        while i < self.entries.len()
            invariant
                i <= self.entries@.len(),
                arena_len == self.arena@.len(),
                forall|j: int|
                    0 <= j < i ==> in_arena(#[trigger] self.entries@[j], arena_len as int),
            decreases self.entries@.len() - i,
        {
            let e = self.entries[i];
            if !lies_in(e.name_off, e.name_len as usize, arena_len) || !lies_in(
                e.name_lower_off,
                e.name_lower_len as usize,
                arena_len,
            ) || !lies_in(e.path_off, e.path_len as usize, arena_len) {
                assert(!in_arena(self.entries@[i as int], self.arena@.len() as int));
                return false;
            }
            i += 1;
        }
        true
    }
}

/// The ids lie below `n`.
pub open spec fn all_below(ids: Seq<u32>, n: int) -> bool {
    forall|id: u32| #[trigger] ids.contains(id) ==> id < n
}

/// Whether the ids lie below `n`.
pub(crate) fn are_below(ids: &[u32], n: usize) -> (b: bool)
    ensures
        b == all_below(ids@, n as int),
{
    let mut i: usize = 0;
    while i < ids.len()
        invariant
            i <= ids@.len(),
            forall|j: int| 0 <= j < i ==> (#[trigger] ids@[j]) < n,
        decreases ids@.len() - i,
    {
        if ids[i] as u64 >= n as u64 {
            assert(ids@.contains(ids@[i as int]));
            return false;
        }
        i += 1;
    }
    true
}

/// Whether the ids ascend strictly.
pub(crate) fn do_ascend(ids: &[u32]) -> (b: bool)
    ensures
        b == strictly_ascending(ids@),
{
    let mut i: usize = 1;
    while i < ids.len()
        invariant
            1 <= i,
            forall|j: int, k: int|
                0 <= j < k < i && k < ids@.len() ==> (#[trigger] ids@[j]).key() < (
                #[trigger] ids@[k]).key(),
        decreases ids@.len() - i,
    {
        if ids[i] <= ids[i - 1] {
            assert(ids@[i - 1].key() >= ids@[i as int].key());
            return false;
        }
        assert forall|j: int| 0 <= j < i implies (#[trigger] ids@[j]).key()
            < ids@[i as int].key() by {
            if j < i - 1 {
                assert(ids@[j].key() < ids@[i - 1].key());
            }
        }
        i += 1;
    }
    true
}

/// Whether so many bytes from `off` on lie inside an arena of this length.
fn lies_in(off: u32, len: usize, arena_len: usize) -> (b: bool)
    ensures
        b == (off + len <= arena_len),
{
    len <= arena_len && off as usize <= arena_len - len
}

/// What a cell holds: an index, once there is one, and whether it is well formed.
pub type Content = Option<(Arc<Index>, bool)>;

/// What is noted of the index is true.
pub open spec fn rightly_noted(content: Content) -> bool {
    content matches Some((index, sound)) ==> sound == index.well_formed()
}

/// The shared cell of the `arc_swap` crate that holds the current index, once there is one. Its
/// content can be exchanged through a shared reference, so nothing is said of which index it holds
/// at a given time, only what holds of every content that it is ever given.
#[verifier::external_body]
struct IndexCell {
    cell: ArcSwap<Content>,
}

/// Everything that a cell is ever given: what it is made with, and what it is exchanged for at any
/// time and by any thread.
pub uninterp spec fn given(cell: IndexCell) -> Set<Content>;

/// `ArcSwap::new`: a cell that is made with the given value.
#[verifier::external_body]
fn new_cell(first: Arc<Content>) -> (cell: IndexCell)
    requires
        rightly_noted(*first),
    ensures
        given(cell).contains(*first),
{
    IndexCell { cell: ArcSwap::new(first) }
}

/// `ArcSwap::swap`: gives the cell the next value and takes back the one before, which it was given
/// earlier.
#[verifier::external_body]
fn exchange(cell: &IndexCell, next: Arc<Content>) -> (previous: Arc<Content>)
    requires
        rightly_noted(*next),
    ensures
        set![*previous, *next].subset_of(given(*cell)),
{
    cell.cell.swap(next)
}

/// `ArcSwap::load`: a value that the cell was given, be it at first or later. In all of those it was
/// rightly noted whether the index is well formed.
#[verifier::external_body]
fn current(cell: &IndexCell) -> (content: Content)
    ensures
        given(*cell).contains(content),
        rightly_noted(content),
{
    cell.cell.load().as_ref().clone()
}

/// The place from which searches take the current index.
pub struct IndexStore {
    inner: IndexCell,
}

impl IndexStore {
    /// The store is given this index at some time, or is made without one where this is none.
    pub closed spec fn was_given(&self, index: Option<Arc<Index>>) -> bool {
        given(self.inner).contains(
            match index {
                Some(index) => Some((index, index.well_formed())),
                None => None,
            },
        )
    }

    /// A store that is made without an index.
    pub fn new() -> (store: Self)
        ensures
            store.was_given(None),
    {
        IndexStore { inner: new_cell(Arc::new(None)) }
    }

    /// Makes `index` the current index. Other threads may exchange it at any time, so which one a
    /// later `load` gives is not stated.
    pub fn store(&self, index: Index)
        ensures
            self.was_given(Some(Arc::new(index))),
    {
        let sound = index.is_well_formed();
        let next: Arc<Content> = Arc::new(Some((Arc::new(index), sound)));
        let previous = exchange(&self.inner, next);
        assert(set![*previous, *next].contains(*next));
    }

    /// The current index, where there is one. Which of those that the store was given that is rests
    /// on what other threads did.
    pub fn load(&self) -> (index: Option<Arc<Index>>)
        ensures
            self.was_given(index),
    {
        match current(&self.inner) {
            Some((index, _)) => Some(index),
            None => None,
        }
    }

    /// The current index, where there is one, and whether it is well formed.
    pub fn load_checked(&self) -> (loaded: Option<(Arc<Index>, bool)>)
        ensures
            match loaded {
                Some((index, sound)) => self.was_given(Some(index)) && sound
                    == index.well_formed(),
                None => self.was_given(None),
            },
    {
        current(&self.inner)
    }
}

/// The place of the last dot in a name.
pub(crate) fn find_last_dot(name: &[u8]) -> (dot: Option<usize>)
    ensures
        match dot {
            Some(d) => d < name@.len() && last_dot(name@) == Some(d as int),
            None => last_dot(name@) is None,
        },
{
    let mut end: usize = name.len();
    assert(name@.take(end as int) =~= name@);
    while end > 0
        invariant
            end <= name@.len(),
            last_dot(name@.take(end as int)) == last_dot(name@),
        decreases end,
    {
        assert(name@.take(end as int).drop_last() =~= name@.take(end - 1));
        if name[end - 1] == 0x2e {
            return Some(end - 1);
        }
        end -= 1;
    }
    None
}

/// Bit 0 of the flags of an entry is set.
pub open spec fn is_directory(index: Index, id: int) -> bool {
    index.entries@[id].flags % 2 == 1
}

/// Bit 1 of the flags of an entry is set.
pub open spec fn is_hidden_entry(index: Index, id: int) -> bool {
    (index.entries@[id].flags / 2) % 2 == 1
}

/// The bytes of the name of an entry.
pub open spec fn name_at(index: Index, id: int) -> Seq<u8> {
    let e = index.entries@[id];
    index.arena@.subrange(e.name_off as int, e.name_off + e.name_len)
}

/// The bytes of the lower case name of an entry.
pub open spec fn lower_name_at(index: Index, id: int) -> Seq<u8> {
    let e = index.entries@[id];
    index.arena@.subrange(e.name_lower_off as int, e.name_lower_off + e.name_lower_len)
}

/// The bytes of the path of an entry.
pub open spec fn path_at(index: Index, id: int) -> Seq<u8> {
    let e = index.entries@[id];
    index.arena@.subrange(e.path_off as int, e.path_off + e.path_len)
}

} // verus!
