use filefinder::text::{
    lower_bytes, lower_name_bytes, shown_string, to_decimal, trim, trim_start_dots,
};

#[test]
fn ascii_names_are_lowered() {
    assert_eq!(lower_bytes("ReadMe.TXT"), b"readme.txt".to_vec());
    assert_eq!(lower_bytes("@[`{"), b"@[`{".to_vec());
    assert_eq!(lower_bytes(""), Vec::<u8>::new());
}

#[test]
fn other_names_are_lowered() {
    assert_eq!(lower_bytes("ФАЙЛ.Doc"), "файл.doc".as_bytes().to_vec());
    assert_eq!(lower_bytes("ÄÖÜ"), "äöü".as_bytes().to_vec());
    assert_eq!(lower_bytes("ΟΔΟΣ"), "οδος".as_bytes().to_vec());
    assert_eq!(lower_bytes("日本"), "日本".as_bytes().to_vec());
}

#[test]
fn lowering_agrees_with_the_standard_library() {
    for text in ["İstanbul", "STRASSE", "ẞ", "aB\u{130}c", "Ǆ", "K"] {
        assert_eq!(lower_bytes(text), text.to_lowercase().into_bytes());
    }
}

#[test]
fn ascii_case_is_ignored() {
    let text = "Mixed Case-42.Tar.GZ";
    assert_eq!(lower_bytes(&text.to_ascii_uppercase()), lower_bytes(text));
}

#[test]
fn white_space_is_trimmed_at_both_ends() {
    assert_eq!(trim("  a b \t\n"), "a b");
    assert_eq!(trim("\u{a0}\u{3000}имя\u{2003}"), "имя");
    assert_eq!(trim(" \t "), "");
    assert_eq!(trim(""), "");
    assert_eq!(trim("\u{200b}x\u{200b}"), "\u{200b}x\u{200b}");
}

#[test]
fn every_character_is_trimmed_as_the_standard_library_does() {
    for c in '\0'..=char::MAX {
        let text = String::from(c);
        assert_eq!(trim(&text).is_empty(), c.is_whitespace(), "{:?}", c);
    }
}

#[test]
fn leading_dots_are_trimmed() {
    assert_eq!(trim_start_dots("...tar.gz."), "tar.gz.");
    assert_eq!(trim_start_dots("txt"), "txt");
    assert_eq!(trim_start_dots(".."), "");
}

#[test]
fn numbers_are_written_in_decimal() {
    for n in [0u64, 7, 9, 10, 99, 100, 1234567890, u64::MAX - 1, u64::MAX] {
        assert_eq!(to_decimal(n), n.to_string());
    }
}

#[test]
fn text_is_shown_as_it_is() {
    for text in ["", "plain", "Файл \u{1f600}\u{10ffff}", "\u{7f}\u{80}\u{7ff}\u{800}\u{ffff}"] {
        assert_eq!(shown_string(text.as_bytes()), text);
        assert_eq!(lower_name_bytes(text.as_bytes()), lower_bytes(text));
    }
}

#[test]
fn bytes_that_spell_nothing_are_replaced() {
    assert_eq!(shown_string(b"a\xffb"), "a\u{fffd}b");
    assert_eq!(shown_string(b"\xed\xb0\x80x"), "\u{fffd}\u{fffd}\u{fffd}x");
    assert_eq!(shown_string("яя".as_bytes().split_at(3).0), "я\u{fffd}");
    assert_eq!(shown_string("日".as_bytes().split_at(2).0), "\u{fffd}\u{fffd}");
    assert_eq!(shown_string(b"\xc0\x80"), "\u{fffd}\u{fffd}");
    assert_eq!(shown_string("\u{1f600}\u{fffd}".as_bytes()), "\u{1f600}\u{fffd}");
}

#[test]
fn bytes_that_spell_nothing_keep_their_place_in_lower_case() {
    assert_eq!(lower_name_bytes(b"AB\xed\xb0\x80C.TXT"), b"ab\xed\xb0\x80c.txt".to_vec());
    assert_eq!(lower_name_bytes(b"\xd0"), b"\xd0".to_vec());
    let mixed = [b"\xff".to_vec(), "ФАЙЛ".as_bytes().to_vec()].concat();
    assert_eq!(
        lower_name_bytes(&mixed),
        [b"\xff".to_vec(), "файл".as_bytes().to_vec()].concat()
    );
}
