use filefinder::index::builder::IndexBuilder;
use filefinder::index::entry::Entry;
use filefinder::index::store::{Index, IndexStore};
use filefinder::index::trigram::{intersect_sorted, trigram_hash, TrigramIndex};

fn sample() -> IndexBuilder {
    let mut builder = IndexBuilder::with_capacity(4);
    builder.add("Report.PDF", "C:\\Docs\\Report.PDF", false, false, 100, 1_600_000_000);
    builder.add("Docs", "C:\\Docs", true, false, 0, 5);
    builder.add_from_bytes(".config", b"C:\\.config", false, true, 7, 0);
    builder
}

fn summary(index: &Index) -> Vec<(String, Vec<u8>, String, u64, u64, bool, bool)> {
    index
        .entries
        .iter()
        .map(|e| {
            (
                index.entry_name(e).to_string(),
                index.entry_name_lower(e).to_vec(),
                index.entry_path(e).to_string(),
                e.size,
                e.modified,
                e.is_dir(),
                e.is_hidden(),
            )
        })
        .collect()
}

fn sample_summary() -> Vec<(String, Vec<u8>, String, u64, u64, bool, bool)> {
    vec![
        (
            "Report.PDF".to_string(),
            b"report.pdf".to_vec(),
            "C:\\Docs\\Report.PDF".to_string(),
            100,
            1_600_000_000,
            false,
            false,
        ),
        ("Docs".to_string(), b"docs".to_vec(), "C:\\Docs".to_string(), 0, 5, true, false),
        (".config".to_string(), b".config".to_vec(), "C:\\.config".to_string(), 7, 0, false, true),
    ]
}

#[test]
fn empty_builder_has_no_entries() {
    let builder = IndexBuilder::with_capacity(10);
    assert_eq!(builder.entry_count(), 0);
    let index = builder.finalize();
    assert!(index.entries.is_empty());
    assert!(index.is_well_formed());
}

#[test]
fn huge_capacity_is_a_hint() {
    assert_eq!(IndexBuilder::with_capacity(1 << 20).entry_count(), 0);
}

#[test]
fn added_entries_are_read_back() {
    let builder = sample();
    assert_eq!(builder.entry_count(), 3);
    let index = builder.finalize();
    assert_eq!(summary(&index), sample_summary());
    assert!(index.is_well_formed());
}

#[test]
fn texts_lie_one_after_the_other() {
    let index = sample().finalize();
    let first = index.entries[0];
    assert_eq!((first.name_off, first.name_len), (0, 10));
    assert_eq!((first.name_lower_off, first.name_lower_len), (10, 10));
    assert_eq!((first.path_off, first.path_len), (20, 18));
    assert_eq!(index.entries[1].name_off, 38);
    assert_eq!(index.get_bytes(0, 6), b"Report");
    assert_eq!(index.get_str(10, 10), "report.pdf");
}

#[test]
fn lower_case_name_can_be_given() {
    let mut builder = IndexBuilder::with_capacity(0);
    builder.add_lowered(b"ABC.X", b"abc.x", b"D:\\ABC.X", false, false, 1, 2);
    let index = builder.finalize();
    assert_eq!(index.entry_name(&index.entries[0]), "ABC.X");
    assert_eq!(index.trigram.query(b"bc."), Some(vec![0]));
    assert_eq!(index.ext_map.get(b"x".as_slice()), Some(&vec![0]));
}

#[test]
fn merged_builders_hold_the_records_of_both() {
    let mut first = sample();
    let second = sample();
    first.merge(second);
    assert_eq!(first.entry_count(), 6);
    let index = first.finalize();
    let mut expected = sample_summary();
    expected.extend(sample_summary());
    assert_eq!(summary(&index), expected);
    assert_eq!(index.trigram.query(b"report"), Some(vec![0, 3]));
    assert_eq!(index.ext_map.get(b"pdf".as_slice()), Some(&vec![0, 3]));
}

#[test]
fn parts_join_as_one() {
    let mut one = sample();
    for e in sample_summary() {
        one.add(&e.0, &e.2, e.5, e.6, e.3, e.4);
    }
    let mut parts = sample();
    parts.merge(sample());
    let one = one.finalize();
    let parts = parts.finalize();
    assert_eq!(summary(&one), summary(&parts));
    assert_eq!(one.arena, parts.arena);
    for query in [b"docs".as_slice(), b"report", b"con", b"fig"] {
        assert_eq!(one.trigram.query(query), parts.trigram.query(query));
    }
}

#[test]
fn extensions_are_indexed() {
    let mut builder = IndexBuilder::with_capacity(0);
    builder.add("a.TXT", "a", false, false, 0, 0);
    builder.add("b.tar.gz", "b", false, false, 0, 0);
    builder.add("dir.txt", "c", true, false, 0, 0);
    builder.add("noext", "d", false, false, 0, 0);
    builder.add("dot.", "e", false, false, 0, 0);
    builder.add("x.abcdefghijkl", "f", false, false, 0, 0);
    builder.add("x.abcdefghijklm", "g", false, false, 0, 0);
    builder.add("z.txt", "h", false, false, 0, 0);
    let index = builder.finalize();
    assert_eq!(index.ext_map.get(b"txt".as_slice()), Some(&vec![0, 7]));
    assert_eq!(index.ext_map.get(b"gz".as_slice()), Some(&vec![1]));
    assert_eq!(index.ext_map.get(b"tar.gz".as_slice()), None);
    assert_eq!(index.ext_map.get(b"".as_slice()), None);
    assert_eq!(index.ext_map.get(b"abcdefghijkl".as_slice()), Some(&vec![5]));
    assert_eq!(index.ext_map.get(b"abcdefghijklm".as_slice()), None);
    assert_eq!(index.ext_map.len(), 3);
}

#[test]
fn long_names_are_clipped() {
    let mut builder = IndexBuilder::with_capacity(0);
    let name = "A".repeat(70_000);
    builder.add(&name, "p", false, false, 0, 0);
    let index = builder.finalize();
    assert_eq!(index.entries[0].name_len, 65535);
    assert_eq!(index.entries[0].name_lower_len, 65535);
    assert_eq!(index.entry_path(&index.entries[0]), "p");
}

#[test]
fn name_cut_inside_a_character_keeps_its_bytes() {
    let mut builder = IndexBuilder::with_capacity(0);
    let name = "я".repeat(40_000);
    builder.add(&name, "p", false, false, 0, 0);
    let index = builder.finalize();
    assert!(index.is_well_formed());
    assert_eq!(index.get_bytes(0, 65535), &name.as_bytes()[..65535]);
    assert_eq!(index.entries[0].name_len, 65535);
}

#[test]
fn unsound_indexes_are_told() {
    let mut index = sample().finalize();
    assert!(index.is_well_formed());
    index.entries[1].path_len += 100;
    assert!(!index.is_well_formed());
    let mut index = sample().finalize();
    index.entries[0].name_off = u32::MAX;
    assert!(!index.is_well_formed());
    let mut index = sample().finalize();
    index.entries.pop();
    assert!(!index.is_well_formed());
    let mut index = sample().finalize();
    index.ext_map.insert(b"zzz".to_vec().into_boxed_slice(), vec![2, 1]);
    assert!(index.is_well_formed());
    let mut index = sample().finalize();
    index.ext_map.insert(b"zzz".to_vec().into_boxed_slice(), vec![3]);
    assert!(!index.is_well_formed());
    let mut index = sample().finalize();
    index.trigram.merge_posting(trigram_hash(b"rep"), vec![0]);
    assert!(!index.is_well_formed());
    let mut index = sample().finalize();
    index.trigram.merge_posting(77, vec![9]);
    assert!(!index.is_well_formed());
    let store = IndexStore::new();
    store.store(index);
    assert_eq!(store.load().unwrap().entries.len(), 3);
    assert!(!store.load_checked().unwrap().1);
    store.store(sample().finalize());
    assert!(store.load_checked().unwrap().1);
}

#[test]
fn flags_tell_what_they_were_made_from() {
    for (is_dir, is_hidden) in [(false, false), (false, true), (true, false), (true, true)] {
        let mut builder = IndexBuilder::with_capacity(0);
        builder.add("n", "p", is_dir, is_hidden, 0, 0);
        let entry: Entry = builder.finalize().entries[0];
        assert_eq!((entry.is_dir(), entry.is_hidden()), (is_dir, is_hidden));
        assert_eq!(entry.flags, is_dir as u16 | (is_hidden as u16) << 1);
    }
}

#[test]
fn trigram_hash_joins_three_bytes() {
    assert_eq!(trigram_hash(b"abc"), 0x636261);
    assert_eq!(trigram_hash(&[0xff, 0x01, 0x80, 0x55]), 0x8001ff);
}

#[test]
fn intersect_sorted_keeps_common_ids() {
    assert_eq!(intersect_sorted(&[1, 4, 6, 9], &[0, 4, 9, 12]), vec![4, 9]);
    assert_eq!(intersect_sorted(&[], &[1]), Vec::<u32>::new());
}

#[test]
fn trigram_queries() {
    let mut index = TrigramIndex::new();
    index.insert(2, b"banana");
    index.insert(0, b"bandana");
    index.insert(1, b"an");
    index.insert(2, b"banana");
    index.finalize();
    assert_eq!(index.query(b"ana"), Some(vec![0, 2]));
    assert_eq!(index.query(b"ban"), Some(vec![0, 2]));
    assert_eq!(index.query(b"nan"), Some(vec![2]));
    assert_eq!(index.query(b"banan"), Some(vec![2]));
    assert_eq!(index.query(b"dan"), Some(vec![0]));
    assert_eq!(index.query(b"xyz"), Some(vec![]));
    assert_eq!(index.query(b"banx"), Some(vec![]));
    assert_eq!(index.query(b"an"), None);
    assert_eq!(index.query(b""), None);
}

#[test]
fn repeated_trigram_is_posted_once_for_a_run() {
    let mut index = TrigramIndex::new();
    index.insert(7, b"aaaaabaaa");
    let posting = index.take_posting();
    assert_eq!(posting.get(&trigram_hash(b"aaa")), Some(&vec![7, 7]));
    assert_eq!(posting.get(&trigram_hash(b"aab")), Some(&vec![7]));
    assert_eq!(posting.len(), 4);
}

#[test]
fn finalize_sorts_and_leaves_one_of_each() {
    let mut index = TrigramIndex::new();
    index.merge_posting(5, vec![9, 3, 3]);
    index.merge_posting(5, vec![1, 9]);
    index.merge_posting(6, vec![2]);
    index.finalize();
    let posting = index.take_posting();
    assert_eq!(posting.get(&5), Some(&vec![1, 3, 9]));
    assert_eq!(posting.get(&6), Some(&vec![2]));
    assert_eq!(posting.get(&7), None);
}

#[test]
fn store_gives_the_index_that_was_stored() {
    let store = IndexStore::new();
    assert!(store.load().is_none());
    assert!(store.load_checked().is_none());
    store.store(sample().finalize());
    assert_eq!(store.load().unwrap().entries.len(), 3);
    store.store(IndexBuilder::with_capacity(0).finalize());
    assert_eq!(store.load().unwrap().entries.len(), 0);
}

#[test]
fn loaded_index_outlives_an_exchange() {
    let store = IndexStore::new();
    store.store(sample().finalize());
    let held = store.load().unwrap();
    store.store(IndexBuilder::with_capacity(0).finalize());
    assert_eq!(held.entries.len(), 3);
}
