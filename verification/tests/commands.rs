use filefinder::commands::files::{clipboard_command, file_properties, FileFacts};
use filefinder::commands::indexing::{
    assemble, choose_method, conclude, publish, read_by_walk, read_from_table,
    set_finished, set_method, set_scanned, set_totals, start_indexing, total_estimate, DriveData,
    ReadMethod,
};
use filefinder::index::builder::IndexBuilder;
use filefinder::index::store::IndexStore;
use filefinder::mft::arena::MftArena;
use filefinder::mft::scanner::MftScanResult;
use filefinder::mft::types::MftRawEntry;
use filefinder::platform::walker::WalkedEntry;
use filefinder::types::drive::IndexState;

fn walked() -> Vec<WalkedEntry> {
    vec![
        ("dir".to_string(), "D:\\dir".to_string(), true, false, 0, 1),
        ("a.txt".to_string(), "D:\\dir\\a.txt".to_string(), false, false, 10, 2),
        (".b".to_string(), "D:\\.b".to_string(), false, true, 20, 3),
    ]
}

fn scanned(name_len: u16) -> MftScanResult {
    let mut arena = MftArena::with_capacity(0);
    arena.push("Дата");
    MftScanResult {
        entries: vec![MftRawEntry {
            file_ref: 9,
            parent_ref: 5,
            name_off: 0,
            name_len,
            is_dir: true,
            is_hidden: false,
            modified: 4,
        }],
        arena,
    }
}

#[test]
fn nothing_was_indexed_at_first() {
    let state = IndexState::new();
    assert!(!state.running && !state.finished && state.drives.is_empty());
    assert_eq!(
        (state.total_scanned, state.total_files, state.total_dirs, state.elapsed_ms),
        (0, 0, 0, 0)
    );
}

#[test]
fn a_drive_must_be_selected() {
    assert_eq!(start_indexing(&Vec::new()).unwrap_err(), "Выберите хотя бы один диск");
}

#[test]
fn indexing_starts_with_the_selected_drives() {
    let state = start_indexing(&vec!['C', 'E']).unwrap();
    assert!(state.running && !state.finished);
    let letters: Vec<char> = state.drives.iter().map(|d| d.letter).collect();
    assert_eq!(letters, ['C', 'E']);
    for d in &state.drives {
        assert_eq!((d.scanned, d.finished, d.method.as_str()), (0, false, ""));
    }
}

#[test]
fn progress_is_noted_for_the_first_drive_with_the_letter() {
    let mut state = start_indexing(&vec!['C', 'E', 'E']).unwrap();
    set_method(&mut state, 'E', ReadMethod::Table);
    set_method(&mut state, 'C', ReadMethod::Walk);
    set_method(&mut state, 'X', ReadMethod::Table);
    set_scanned(&mut state, 'E', 42);
    set_scanned(&mut state, 'X', 7);
    let seen: Vec<(char, &str, bool, u64)> = state
        .drives
        .iter()
        .map(|d| (d.letter, d.method.as_str(), d.finished, d.scanned))
        .collect();
    assert_eq!(seen, [('C', "Walker", false, 0), ('E', "MFT", true, 42), ('E', "", false, 0)]);
}

#[test]
fn totals_and_the_end_are_noted() {
    let mut state = start_indexing(&vec!['C']).unwrap();
    set_totals(&mut state, 30, 20, 10);
    assert_eq!((state.total_scanned, state.total_files, state.total_dirs), (30, 20, 10));
    assert!(state.running);
    set_finished(&mut state, 1234);
    assert!(!state.running && state.finished);
    assert_eq!(state.elapsed_ms, 1234);
    assert_eq!((state.total_scanned, state.total_files, state.total_dirs), (30, 20, 10));
    assert_eq!(state.drives.len(), 1);
}

#[test]
fn file_table_is_read() {
    let read = read_from_table(scanned(8), 'G');
    assert_eq!((read.scanned, read.files, read.dirs), (1, 0, 1));
    match read.data {
        DriveData::Builder(builder) => {
            let index = builder.finalize();
            assert_eq!(index.entry_path(&index.entries[0]), "G:\\Дата");
        }
        DriveData::Walker(_) => panic!("not a walk"),
    }
}

#[test]
fn names_that_are_no_text_are_kept() {
    let read = read_from_table(scanned(7), 'G');
    match read.data {
        DriveData::Builder(builder) => {
            let index = builder.finalize();
            let e = index.entries[0];
            assert_eq!(index.get_bytes(e.name_off, e.name_len as usize), &"Дата".as_bytes()[..7]);
            assert_eq!(index.entry_name_lower(&e), &"дата".as_bytes()[..7]);
        }
        DriveData::Walker(_) => panic!("not a walk"),
    }
}

#[test]
fn walk_is_read() {
    let read = read_by_walk(walked());
    assert_eq!((read.scanned, read.files, read.dirs), (3, 0, 0));
    match read.data {
        DriveData::Walker(entries) => assert_eq!(entries, walked()),
        DriveData::Builder(_) => panic!("not a file table"),
    }
}

#[test]
fn drives_are_taken_in_one_after_the_other() {
    let table = read_from_table(scanned(8), 'G').data;
    let per_drive = vec![
        Ok(table),
        Err("MFT read error: 5".to_string()),
        Ok(DriveData::Walker(walked())),
    ];
    assert_eq!(total_estimate(&per_drive), 4);
    let (builder, files, dirs) = assemble(per_drive);
    assert_eq!((files, dirs), (2, 2));
    let index = builder.finalize();
    let paths: Vec<&str> = index.entries.iter().map(|e| index.entry_path(e)).collect();
    assert_eq!(paths, ["G:\\Дата", "D:\\dir", "D:\\dir\\a.txt", "D:\\.b"]);
    assert_eq!(index.entries[2].size, 10);
    assert_eq!(index.trigram.query(b"a.t"), Some(vec![2]));
}

#[test]
fn volumes_that_open_are_read_from_their_tables() {
    assert_eq!(choose_method(true), ReadMethod::Table);
    assert_eq!(choose_method(false), ReadMethod::Walk);
}

#[test]
fn a_run_that_was_called_off_comes_to_nothing() {
    assert!(conclude(true, vec![Ok(DriveData::Walker(walked()))]).is_none());
    let (builder, files, dirs) =
        conclude(false, vec![Ok(DriveData::Walker(walked()))]).unwrap();
    assert_eq!((builder.entry_count(), files, dirs), (3, 2, 1));
}

#[test]
fn totals_are_those_of_the_index() {
    let table = read_from_table(scanned(8), 'G');
    let counted = (table.files, table.dirs);
    let (builder, files, dirs) =
        conclude(false, vec![Ok(table.data), Ok(DriveData::Walker(walked()))]).unwrap();
    assert_eq!((files, dirs), (counted.0 + 2, counted.1 + 1));
    assert_eq!(builder.count_entries(), (files, dirs));
    let index = builder.finalize();
    assert_eq!(index.entries.iter().filter(|e| e.is_dir()).count() as u64, dirs);
    assert_eq!(index.entries.len() as u64, files + dirs);
}

#[test]
fn nothing_read_makes_an_empty_builder() {
    assert_eq!(total_estimate(&Vec::new()), 0);
    let (builder, files, dirs) = assemble(vec![Err("no".to_string())]);
    assert_eq!((builder.entry_count(), files, dirs), (0, 0, 0));
}

#[test]
fn drives_join_as_one() {
    let mut one = IndexBuilder::with_capacity(0);
    for e in walked().iter().chain(walked().iter()) {
        one.add(&e.0, &e.1, e.2, e.3, e.4, e.5);
    }
    let mut part = IndexBuilder::with_capacity(0);
    for e in &walked() {
        part.add(&e.0, &e.1, e.2, e.3, e.4, e.5);
    }
    let (joint, _, _) =
        assemble(vec![Ok(DriveData::Walker(walked())), Ok(DriveData::Builder(part))]);
    let one = one.finalize();
    let joint = joint.finalize();
    assert_eq!(one.arena, joint.arena);
    assert_eq!(one.trigram.query(b"txt"), joint.trigram.query(b"txt"));
    assert_eq!(one.trigram.query(b"txt"), Some(vec![1, 4]));
}

#[test]
fn published_index_is_the_current_one() {
    let store = IndexStore::new();
    let (builder, _, _) = assemble(vec![Ok(DriveData::Walker(walked()))]);
    publish(&store, builder.finalize());
    assert_eq!(store.load().unwrap().entries.len(), 3);
}

#[test]
fn index_with_paths_that_are_no_text_is_published() {
    let store = IndexStore::new();
    let mut builder = IndexBuilder::with_capacity(0);
    builder.add_from_bytes("x", &[0x61, 0xff], false, false, 0, 0);
    publish(&store, builder.finalize());
    assert_eq!(store.load().unwrap().get_bytes(2, 2), &[0x61, 0xff]);
}

#[test]
fn quotes_are_doubled_for_the_clipboard() {
    assert_eq!(clipboard_command("C:\\a b.txt"), "Set-Clipboard -Value 'C:\\a b.txt'");
    assert_eq!(clipboard_command("C:\\it's"), "Set-Clipboard -Value 'C:\\it''s'");
    assert_eq!(clipboard_command("''ж"), "Set-Clipboard -Value '''''ж'");
    assert_eq!(clipboard_command(""), "Set-Clipboard -Value ''");
}

#[test]
fn properties_have_names() {
    let facts =
        FileFacts { size: 1024, is_dir: false, is_file: true, readonly: true, modified: Some(77) };
    let pairs: Vec<(String, String)> = file_properties(&facts);
    let seen: Vec<(&str, &str)> = pairs.iter().map(|(k, v)| (k.as_str(), v.as_str())).collect();
    assert_eq!(
        seen,
        [
            ("size", "1024"),
            ("is_dir", "false"),
            ("is_file", "true"),
            ("readonly", "true"),
            ("modified", "77"),
        ]
    );
    let undated = FileFacts { modified: None, ..facts };
    assert_eq!(file_properties(&undated).len(), 4);
}
