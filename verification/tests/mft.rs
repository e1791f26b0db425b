use filefinder::mft::arena::MftArena;
use filefinder::mft::scanner::{MftScanResult, MftScanner, Progress, ReadOutcome};
use filefinder::mft::types::{MftEnumDataV0, MftRawEntry, UsnJournalDataV0};

const EPOCH: i64 = 116_444_736_000_000_000;

fn journal() -> UsnJournalDataV0 {
    UsnJournalDataV0 {
        usn_journal_id: 1,
        first_usn: 2,
        next_usn: 777,
        lowest_valid_usn: 0,
        max_usn: i64::MAX,
        maximum_size: 0,
        allocation_delta: 0,
    }
}

fn record(file: u64, parent: u64, stamp: i64, attributes: u32, units: &[u16]) -> Vec<u8> {
    let mut out = Vec::new();
    let length = (60 + 2 * units.len()).div_ceil(8) * 8;
    out.extend_from_slice(&(length as u32).to_le_bytes());
    out.extend_from_slice(&2u16.to_le_bytes());
    out.extend_from_slice(&0u16.to_le_bytes());
    out.extend_from_slice(&file.to_le_bytes());
    out.extend_from_slice(&parent.to_le_bytes());
    out.extend_from_slice(&55i64.to_le_bytes());
    out.extend_from_slice(&stamp.to_le_bytes());
    out.extend_from_slice(&[0; 12]);
    out.extend_from_slice(&attributes.to_le_bytes());
    out.extend_from_slice(&((2 * units.len()) as u16).to_le_bytes());
    out.extend_from_slice(&60u16.to_le_bytes());
    for unit in units {
        out.extend_from_slice(&unit.to_le_bytes());
    }
    out.resize(length, 0);
    out
}

fn named(file: u64, parent: u64, attributes: u32, name: &str) -> Vec<u8> {
    let units: Vec<u16> = name.encode_utf16().collect();
    record(file, parent, EPOCH, attributes, &units)
}

fn buffer(records: &[Vec<u8>]) -> Vec<u8> {
    let mut out = vec![0xee; 8];
    for r in records {
        out.extend_from_slice(r);
    }
    out.extend_from_slice(&[0; 64]);
    out
}

fn scan(data: &[u8]) -> (MftScanResult, u64) {
    let mut scanner = MftScanner::new(&journal());
    assert!(matches!(scanner.enumerate(ReadOutcome::Read(data)), Progress::ReadOn));
    let start = scanner.request().start_file_reference_number;
    (scanner.finish(), start)
}

fn names(result: &MftScanResult) -> Vec<String> {
    result
        .entries
        .iter()
        .map(|e| result.arena.get(e.name_off, e.name_len).to_string())
        .collect()
}

#[test]
fn arena_gives_names_back() {
    let mut arena = MftArena::with_capacity(10);
    assert_eq!(arena.push("first"), (0, 5));
    assert_eq!(arena.push("второй"), (5, 12));
    assert_eq!(arena.push(""), (17, 0));
    assert_eq!(arena.get(0, 5), "first");
    assert_eq!(arena.get(5, 12), "второй");
    assert_eq!(arena.get(17, 0), "");
    assert_eq!(arena.get_bytes(5, 1), &[0xd0]);
    assert_eq!(arena.push_bytes(&[0xed, 0xb0, 0x80]), (17, 3));
    assert_eq!(arena.get_bytes(17, 3), &[0xed, 0xb0, 0x80]);
    assert_eq!(&arena.into_bytes()[..17], "firstвторой".as_bytes());
}

#[test]
fn arena_clips_lengths() {
    let mut arena = MftArena::with_capacity(0);
    assert_eq!(arena.push(&"x".repeat(70_000)), (0, 65535));
    assert_eq!(arena.push("y"), (70_000, 1));
}

#[test]
fn records_are_noted() {
    let data = buffer(&[
        record(
            0x0003_0000_0000_0028,
            0x0005_0000_0000_0005,
            EPOCH + 15_999_999_999,
            0x10,
            &[0x44, 0x69, 0x72],
        ),
        named(0x0001_0000_0000_0029, 0x0003_0000_0000_0028, 0x22, "Файл.txt"),
    ]);
    let (result, start) = scan(&data);
    assert_eq!(start, 0x0001_0000_0000_0029);
    assert_eq!(names(&result), ["Dir", "Файл.txt"]);
    let e = result.entries[0];
    assert_eq!((e.file_ref, e.parent_ref), (0x28, 5));
    assert_eq!((e.is_dir, e.is_hidden, e.modified), (true, false, 1599));
    let e = result.entries[1];
    assert_eq!((e.file_ref, e.parent_ref), (0x29, 0x28));
    assert_eq!((e.is_dir, e.is_hidden, e.modified), (false, true, 0));
    assert_eq!((e.name_off, e.name_len), (3, 12));
}

#[test]
fn kept_names() {
    assert!(MftScanner::is_valid_filename("a"));
    assert!(MftScanner::is_valid_filename("..."));
    assert!(MftScanner::is_valid_filename(".git"));
    assert!(MftScanner::is_valid_filename("a$"));
    assert!(!MftScanner::is_valid_filename(""));
    assert!(!MftScanner::is_valid_filename("."));
    assert!(!MftScanner::is_valid_filename(".."));
    assert!(!MftScanner::is_valid_filename("$MFT"));
}

#[test]
fn names_that_are_not_kept_are_passed_over() {
    let data = buffer(&[
        named(1, 5, 0, "$MFT"),
        named(2, 5, 0, "."),
        record(3, 5, EPOCH, 0, &[]),
        named(7, 5, 0, "kept"),
        named(8, 5, 0, "$Extend"),
    ]);
    let (result, start) = scan(&data);
    assert_eq!(names(&result), ["kept"]);
    assert_eq!(start, 8);
}

#[test]
fn every_name_gets_an_entry() {
    let data = buffer(&[
        named(1, 5, 0x10, "\u{1f600}"),
        named(2, 1, 0, "a\u{1f680}b.txt"),
        record(3, 1, EPOCH, 0, &[0x61, 0xdc00]),
        record(4, 1, EPOCH, 0, &[0xd800, 0x62]),
        record(6, 1, EPOCH, 0, &[0xd83d]),
    ]);
    let (result, start) = scan(&data);
    let bytes: Vec<Vec<u8>> = result
        .entries
        .iter()
        .map(|e| result.arena.get_bytes(e.name_off, e.name_len).to_vec())
        .collect();
    assert_eq!(
        bytes,
        [
            "\u{1f600}".as_bytes().to_vec(),
            "a\u{1f680}b.txt".as_bytes().to_vec(),
            vec![0x61, 0xed, 0xb0, 0x80],
            vec![0xed, 0xa0, 0x80, 0x62],
            vec![0xed, 0xa0, 0xbd],
        ]
    );
    assert_eq!(start, 6);
    assert!(result.entries[0].is_dir);
}

#[test]
fn utf16_with_pairs_is_recoded() {
    let recode = |units: &[u16]| {
        let mut out = b"> ".to_vec();
        let whole = MftScanner::utf16_to_utf8(units, &mut out);
        (out, whole)
    };
    for text in ["", "plain", "Файл", "\u{10000}\u{10ffff}", "x\u{1f600}\u{e9}\u{20000}日"] {
        let units: Vec<u16> = text.encode_utf16().collect();
        assert_eq!(recode(&units), (format!("> {}", text).into_bytes(), true));
    }
    assert_eq!(recode(&[0xd800]), (b"> \xed\xa0\x80".to_vec(), false));
    assert_eq!(recode(&[0xdfff, 0x61]), (b"> \xed\xbf\xbfa".to_vec(), false));
    assert_eq!(
        recode(&[0xdbff, 0xd800, 0xdc00]),
        (b"> \xed\xaf\xbf\xf0\x90\x80\x80".to_vec(), false)
    );
    assert_eq!(recode(&[0xdc00, 0xd800]), (b"> \xed\xb0\x80\xed\xa0\x80".to_vec(), false));
    assert_eq!(recode(&[0x62, 0xd83d, 0x62]), (b"> b\xed\xa0\xbdb".to_vec(), false));
}

#[test]
fn every_character_is_read_back_from_its_units() {
    for c in '\0'..=char::MAX {
        let mut units = [0u16; 2];
        let mut out = Vec::new();
        assert!(MftScanner::utf16_to_utf8(c.encode_utf16(&mut units), &mut out));
        assert_eq!(out, String::from(c).into_bytes());
    }
}

#[test]
fn name_outside_the_data_is_passed_over() {
    let mut bad = named(1, 5, 0, "abcd");
    bad[58..60].copy_from_slice(&5000u16.to_le_bytes());
    let data = buffer(&[bad, named(2, 5, 0, "next")]);
    let (result, start) = scan(&data);
    assert_eq!(names(&result), ["next"]);
    assert_eq!(start, 2);
}

#[test]
fn odd_name_length_is_rounded_down() {
    let mut odd = named(1, 5, 0, "abcd");
    odd[56..58].copy_from_slice(&7u16.to_le_bytes());
    let (result, _) = scan(&buffer(&[odd]));
    assert_eq!(names(&result), ["abc"]);
}

#[test]
fn walk_ends_at_a_length_that_makes_no_sense() {
    let mut endless = named(2, 5, 0, "two");
    endless[0..4].copy_from_slice(&0u32.to_le_bytes());
    let (result, start) = scan(&buffer(&[named(1, 5, 0, "one"), endless, named(3, 5, 0, "three")]));
    assert_eq!(names(&result), ["one"]);
    assert_eq!(start, 1);

    let mut huge = named(2, 5, 0, "two");
    huge[0..4].copy_from_slice(&0x10001u32.to_le_bytes());
    let (result, start) = scan(&buffer(&[named(1, 5, 0, "one"), huge]));
    assert_eq!(names(&result), ["one"]);
    assert_eq!(start, 1);

    let mut last = named(2, 5, 0, "two");
    last[0..4].copy_from_slice(&0x10000u32.to_le_bytes());
    let (result, start) = scan(&buffer(&[last, named(3, 5, 0, "three")]));
    assert_eq!(names(&result), ["two"]);
    assert_eq!(start, 2);
}

#[test]
fn record_that_does_not_fit_is_left_out() {
    let mut data = vec![0; 8];
    data.extend_from_slice(&named(1, 5, 0, "abcdefgh"));
    let full = data.len();
    data.extend_from_slice(&named(2, 5, 0, "cut"));
    data.truncate(full + 63);
    let (result, start) = scan(&data);
    assert_eq!(names(&result), ["abcdefgh"]);
    assert_eq!(start, 1);
}

#[test]
fn only_the_returned_bytes_are_read() {
    let data = buffer(&[named(1, 5, 0, "one more"), named(2, 5, 0, "two more")]);
    let mut enum_data =
        MftEnumDataV0 { start_file_reference_number: 9, low_usn: 3, high_usn: 4 };
    let mut entries: Vec<MftRawEntry> = Vec::new();
    let mut arena = MftArena::with_capacity(0);
    let mut scratch = vec![1, 2, 3];
    MftScanner::parse_buffer(
        &data,
        8 + 80,
        &mut enum_data,
        &mut entries,
        &mut arena,
        &mut scratch,
    );
    assert_eq!(entries.len(), 1);
    assert_eq!(arena.get(entries[0].name_off, entries[0].name_len), "one more");
    assert_eq!(
        (enum_data.start_file_reference_number, enum_data.low_usn, enum_data.high_usn),
        (1, 3, 4)
    );
    MftScanner::parse_buffer(&data, 5, &mut enum_data, &mut entries, &mut arena, &mut scratch);
    assert_eq!(entries.len(), 1);
}

#[test]
fn time_stamps_become_seconds() {
    let stamps = [
        (EPOCH, 0),
        (EPOCH - 1, 0),
        (0, 0),
        (EPOCH + 9_999_999, 0),
        (EPOCH + 10_000_000, 1),
        (EPOCH + 16_094_592_000_000_000, 1_609_459_200),
        (-1, (u64::MAX - EPOCH as u64) / 10_000_000),
    ];
    for (stamp, secs) in stamps {
        let (result, _) = scan(&buffer(&[record(1, 5, stamp, 0, &[0x61])]));
        assert_eq!(result.entries[0].modified, secs);
    }
}

#[test]
fn utf16_is_recoded() {
    for text in ["plain", "naïve café", "Файл", "日本語\u{7ff}\u{800}\u{ffff}\u{e000}", ""] {
        let units: Vec<u16> = text.encode_utf16().collect();
        let mut out = b"> ".to_vec();
        assert!(MftScanner::utf16_to_utf8_fast(&units, &mut out));
        assert_eq!(out, format!("> {}", text).into_bytes());
    }
}

#[test]
fn every_unit_that_is_no_surrogate_is_recoded_as_its_character() {
    for unit in 0..=0xffffu16 {
        if let Some(c) = char::from_u32(unit as u32) {
            let mut out = Vec::new();
            assert!(MftScanner::utf16_to_utf8_fast(&[unit], &mut out));
            assert_eq!(out, String::from(c).into_bytes());
        }
    }
}

#[test]
fn recoding_gives_up_at_a_pair() {
    let mut out = Vec::new();
    assert!(!MftScanner::utf16_to_utf8_fast(&[0x61, 0x444, 0xd800, 0x62], &mut out));
    assert_eq!(out, "aф".as_bytes());
    let mut out = Vec::new();
    assert!(!MftScanner::utf16_to_utf8_fast(&[0xdbff], &mut out));
    assert!(out.is_empty());
}

#[test]
fn enumeration_starts_at_the_first_record() {
    let scanner = MftScanner::new(&journal());
    let request = scanner.request();
    assert_eq!(request.start_file_reference_number, 0);
    assert_eq!((request.low_usn, request.high_usn), (0, 777));
    assert!(scanner.finish().entries.is_empty());
}

#[test]
fn enumeration_goes_on_from_the_last_record() {
    let mut scanner = MftScanner::new(&journal());
    let first = buffer(&[named(0x0002_0000_0000_0010, 5, 0, "a")]);
    assert!(matches!(scanner.enumerate(ReadOutcome::Read(&first)), Progress::ReadOn));
    assert_eq!(scanner.request().start_file_reference_number, 0x0002_0000_0000_0010);
    assert_eq!((scanner.request().low_usn, scanner.request().high_usn), (0, 777));
    let second = buffer(&[named(0x11, 5, 0, "b")]);
    assert!(matches!(scanner.enumerate(ReadOutcome::Read(&second)), Progress::ReadOn));
    assert!(matches!(scanner.enumerate(ReadOutcome::Failed(38)), Progress::Finished));
    assert_eq!(names(&scanner.finish()), ["a", "b"]);
}

#[test]
fn enumeration_ends() {
    let mut scanner = MftScanner::new(&journal());
    assert!(matches!(scanner.enumerate(ReadOutcome::Cancelled), Progress::Finished));
    assert!(matches!(scanner.enumerate(ReadOutcome::Failed(38)), Progress::Finished));
    assert!(matches!(scanner.enumerate(ReadOutcome::Read(&[0; 7])), Progress::Finished));
    assert!(matches!(scanner.enumerate(ReadOutcome::Read(&[0; 8])), Progress::ReadOn));
}

#[test]
fn failed_read_is_told() {
    let mut scanner = MftScanner::new(&journal());
    match scanner.enumerate(ReadOutcome::Failed(1117)) {
        Progress::Failed(message) => assert_eq!(message, "MFT read error: 1117"),
        _ => panic!("the failure was not told"),
    }
}

#[test]
fn long_names_are_cut_short() {
    let units = vec![0x44fu16; 32_700];
    let mut data = vec![0; 8];
    data.extend_from_slice(&record(1, 5, EPOCH, 0, &units));
    let (result, _) = scan(&data);
    assert_eq!(names(&result), ["я".repeat(32_700)]);
    let units: Vec<u16> = std::iter::once(0x61).chain(vec![0x65e5u16; 32_000]).collect();
    let mut data = vec![0; 8];
    data.extend_from_slice(&record(1, 5, EPOCH, 0, &units));
    let (result, _) = scan(&data);
    let e = result.entries[0];
    let whole = format!("a{}", "日".repeat(32_000)).into_bytes();
    assert_eq!(e.name_len, 65535);
    assert_eq!(result.arena.get_bytes(e.name_off, e.name_len), &whole[..65535]);
}
