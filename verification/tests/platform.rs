use filefinder::index::store::Index;
use filefinder::mft::arena::MftArena;
use filefinder::mft::scanner::MftScanResult;
use filefinder::mft::types::MftRawEntry;
use filefinder::platform::drives::{
    drive_letters, get_drive_type_string, list_available_drives, DriveProbe,
};
use filefinder::platform::paths::{build_paths_into_builder, drive_root};
use filefinder::platform::walker::{walked_entry, WalkedMeta};

fn scan_of(entries: &[(u64, u64, &str, bool)]) -> MftScanResult {
    let mut arena = MftArena::with_capacity(100);
    let mut raw = Vec::new();
    for (file_ref, parent_ref, name, is_dir) in entries {
        let (name_off, name_len) = arena.push(name);
        raw.push(MftRawEntry {
            file_ref: *file_ref,
            parent_ref: *parent_ref,
            name_off,
            name_len,
            is_dir: *is_dir,
            is_hidden: name.starts_with('.'),
            modified: *file_ref,
        });
    }
    MftScanResult { entries: raw, arena }
}

fn paths(index: &Index) -> Vec<String> {
    index.entries.iter().map(|e| index.entry_path(e).to_string()).collect()
}

fn listed(entries: &[(u64, u64, &str, bool)], letter: char) -> (Vec<String>, u64, u64) {
    let (builder, files, dirs) = build_paths_into_builder(scan_of(entries), letter);
    let index = builder.finalize();
    assert!(index.is_well_formed());
    (paths(&index), files, dirs)
}

#[test]
fn empty_scan_lists_nothing() {
    assert_eq!(listed(&[], 'C'), (vec![], 0, 0));
}

#[test]
fn paths_follow_the_directories() {
    let (paths, files, dirs) = listed(
        &[
            (30, 20, "deep.txt", false),
            (10, 5, "Users", true),
            (20, 10, "Ann", true),
            (40, 5, "root.sys", false),
            (31, 20, "photo.jpg", false),
            (21, 10, "Bob", true),
        ],
        'C',
    );
    assert_eq!(
        paths,
        [
            "C:\\Users",
            "C:\\Users\\Ann",
            "C:\\Users\\Ann\\deep.txt",
            "C:\\Users\\Ann\\photo.jpg",
            "C:\\Users\\Bob",
            "C:\\root.sys",
        ]
    );
    assert_eq!((files, dirs), (3, 3));
}

#[test]
fn facts_of_the_entries_are_kept() {
    let (builder, _, _) =
        build_paths_into_builder(scan_of(&[(7, 0, ".Hidden", false), (9, 5, "Дир", true)]), 'd');
    let index = builder.finalize();
    let e = index.entries[0];
    assert_eq!(index.entry_name(&e), ".Hidden");
    assert_eq!(index.entry_name_lower(&e), b".hidden");
    assert_eq!(index.entry_path(&e), "d:\\.Hidden");
    assert_eq!((e.size, e.modified, e.is_dir(), e.is_hidden()), (0, 7, false, true));
    let e = index.entries[1];
    assert_eq!(index.entry_name_lower(&e), "дир".as_bytes());
    assert_eq!((e.is_dir(), e.is_hidden(), e.modified), (true, false, 9));
}

#[test]
fn entries_of_unknown_parents_lie_in_the_root() {
    let (paths, _, _) = listed(
        &[(1, 0, "zero", false), (2, 5, "five", false), (3, 999, "lost", true), (4, 3, "in", false)],
        'E',
    );
    assert_eq!(paths, ["E:\\zero", "E:\\five", "E:\\lost", "E:\\lost\\in"]);
}

#[test]
fn files_are_not_gone_into() {
    let (paths, files, dirs) = listed(&[(1, 5, "file", false), (2, 1, "below", false)], 'C');
    assert_eq!(paths, ["C:\\file"]);
    assert_eq!((files, dirs), (1, 0));
}

#[test]
fn circles_cannot_be_reached() {
    let (paths, files, dirs) = listed(
        &[
            (1, 2, "a", true),
            (2, 1, "b", true),
            (3, 3, "self", true),
            (4, 5, "ok", true),
            (6, 2, "child", false),
        ],
        'C',
    );
    assert_eq!(paths, ["C:\\ok"]);
    assert_eq!((files, dirs), (0, 1));
}

#[test]
fn one_of_several_entries_with_a_reference_is_gone_into() {
    let (paths, files, dirs) = listed(
        &[(1, 5, "twin", true), (1, 5, "twin", true), (2, 1, "x", false), (3, 1, "y", false)],
        'C',
    );
    assert_eq!(paths.len(), 4);
    assert_eq!((files, dirs), (2, 2));
    let mut sorted = paths.clone();
    sorted.sort();
    assert_eq!(sorted, ["C:\\twin", "C:\\twin", "C:\\twin\\x", "C:\\twin\\y"]);
    let x = paths.iter().position(|p| p == "C:\\twin\\x").unwrap();
    assert_eq!(paths[x + 1], "C:\\twin\\y");
}

#[test]
fn many_roots_are_listed_in_order() {
    for n in [15u64, 16, 17, 24, 100, 257] {
        let names: Vec<String> = (0..n).map(|i| format!("dir{}", i)).collect();
        let mut entries: Vec<(u64, u64, &str, bool)> = Vec::new();
        for (i, name) in names.iter().enumerate() {
            entries.push((1000 + i as u64, 5, name, true));
            entries.push((5000 + i as u64, 1000 + i as u64, "inner.txt", false));
        }
        let (paths, files, dirs) = listed(&entries, 'F');
        let mut expected = Vec::new();
        for name in &names {
            expected.push(format!("F:\\{}", name));
            expected.push(format!("F:\\{}\\inner.txt", name));
        }
        assert_eq!(paths, expected);
        assert_eq!((files, dirs), (n, n));
    }
}

#[test]
fn deep_trees_are_listed() {
    let mut entries: Vec<(u64, u64, &str, bool)> = Vec::new();
    for i in 0..200u64 {
        entries.push((100 + i, if i == 0 { 5 } else { 99 + i }, "d", true));
    }
    entries.reverse();
    let (paths, _, dirs) = listed(&entries, 'C');
    assert_eq!(dirs, 200);
    assert_eq!(paths[0], "C:\\d");
    assert_eq!(paths[199], format!("C:{}", "\\d".repeat(200)));
}

#[test]
fn drive_roots() {
    assert_eq!(drive_root('C'), "C:\\");
    assert_eq!(drive_root('я'), "я:\\");
}

#[test]
fn drive_kinds_have_names() {
    assert_eq!(get_drive_type_string(3), "Локальный диск");
    assert_eq!(get_drive_type_string(2), "Съёмный диск");
    for code in [0, 1, 4, 5, 6, u32::MAX] {
        assert_eq!(get_drive_type_string(code), "Другой");
    }
}

#[test]
fn drives_are_looked_for_from_c_to_z() {
    assert_eq!(drive_letters(), ('C'..='Z').collect::<Vec<_>>());
}

#[test]
fn existing_drives_are_listed() {
    let probe = |letter, exists, type_code| DriveProbe { letter, exists, type_code };
    let drives = list_available_drives(&vec![
        probe('C', true, 3),
        probe('D', false, 3),
        probe('E', true, 2),
        probe('Z', true, 4),
    ]);
    let seen: Vec<(char, &str, bool)> =
        drives.iter().map(|d| (d.letter, d.drive_type.as_str(), d.available)).collect();
    assert_eq!(
        seen,
        [('C', "Локальный диск", true), ('E', "Съёмный диск", true), ('Z', "Другой", true)]
    );
    assert!(list_available_drives(&Vec::new()).is_empty());
}

#[test]
fn walked_entries() {
    let entry = |name: &str, is_dir, meta| {
        walked_entry(name.to_string(), format!("/{}", name), is_dir, meta)
    };
    let meta = Some(WalkedMeta { size: 12, modified: Some(34) });
    assert_eq!(
        entry("a.txt", false, meta),
        ("a.txt".to_string(), "/a.txt".to_string(), false, false, 12, 34)
    );
    assert_eq!(
        entry(".git", true, meta),
        (".git".to_string(), "/.git".to_string(), true, true, 0, 34)
    );
    let undated = Some(WalkedMeta { size: 5, modified: None });
    assert_eq!(entry("b", false, undated).5, 0);
    assert_eq!(entry("b", false, undated).4, 5);
    assert_eq!((entry("c", false, None).4, entry("c", false, None).5), (0, 0));
    assert!(!entry("", false, None).3);
}
