use ooo::{parse_byte_string, ArchiveEntryMeta, Malformed};

#[test]
fn a_string_ends_at_its_quote() {
    let dict = b"name=\"a b\" mode=7";
    let mut index = 5;
    assert_eq!(parse_byte_string(&mut index, dict), b"a b");
    assert_eq!(index, 11);
    assert_eq!(dict[index], b'm');
}

#[test]
fn escape_sequences_stand_for_characters() {
    let mut index = 0;
    assert_eq!(parse_byte_string(&mut index, b"\"a\\\"b\" c"), b"a\"b");
    assert_eq!(index, 7);
    let mut doubled = 0;
    assert_eq!(parse_byte_string(&mut doubled, b"\"a\\\\b\""), b"a\\b");
    assert_eq!(doubled, 7);
    let mut others = 0;
    let dict = b"\"\\n\\r\\t\\0\\'\\u{7f}\\u{301}\\u{10ffff}!\" x";
    assert_eq!(parse_byte_string(&mut others, dict), "\n\r\t\0'\u{7f}\u{301}\u{10ffff}!".as_bytes());
    assert_eq!(others, dict.len() - 1);
}

#[test]
fn a_backslash_before_anything_else_stands_for_itself_and_hides_it() {
    for (body, value) in [
        ("a\\qb", "a\\b"),
        ("\\u", "\\"),
        ("\\u7f", "\\7f"),
        ("\\u{}", "\\{}"),
        ("\\u{7f", "\\{7f"),
        ("\\u{7g}", "\\{7g}"),
        ("\\u{d800}", "\\{d800}"),
        ("\\u{110000}", "\\{110000}"),
        ("\\u{0000041}", "\\{0000041}"),
        ("\\xff", "\\ff"),
    ] {
        let dict = format!("\"{}\" ", body);
        let mut index = 0;
        assert_eq!(parse_byte_string(&mut index, dict.as_bytes()), value.as_bytes());
        assert_eq!(index, dict.len());
    }
}

#[test]
fn the_largest_and_smallest_numbered_characters_are_read() {
    for c in ['\u{0}', '\u{7f}', '\u{80}', '\u{7ff}', '\u{800}', '\u{d7ff}', '\u{e000}', '\u{ffff}',
        '\u{10000}', '\u{10ffff}'] {
        let dict = format!("\"{}\"", c.escape_unicode());
        let mut index = 0;
        assert_eq!(parse_byte_string(&mut index, dict.as_bytes()), c.to_string().as_bytes());
    }
}

#[test]
fn a_backslash_at_the_very_end_stands_for_itself() {
    let mut index = 0;
    assert_eq!(parse_byte_string(&mut index, b"\"a\\"), b"a\\");
    assert_eq!(index, 4);
}

#[test]
fn shown_text_reads_back() {
    let text: String = ('\0'..='\u{ffff}').chain(['\u{10000}', '\u{e0100}', '\u{10ffff}']).collect();
    let shown = format!("{:?}", text);
    let mut index = 0;
    assert_eq!(parse_byte_string(&mut index, shown.as_bytes()), text.as_bytes());
    assert_eq!(index, shown.len() + 1);
}

#[test]
fn the_order_of_the_fields_does_not_matter() {
    let a = ArchiveEntryMeta::parse(b"size=012 name=\"n\" mode=7 filter=\"lz4\" crc=99");
    let b = ArchiveEntryMeta::parse(b"filter=\"lz4\" crc=99 mode=7 size=012 name=\"n\"");
    for meta in [a, b] {
        assert_eq!(meta.size, 12);
        assert_eq!(meta.name, b"n");
        assert_eq!(meta.mode, 7);
        assert_eq!(meta.filter, b"lz4");
        assert_eq!(meta.crc, 99);
        assert_eq!(meta.entry_type, b"file");
        assert_eq!(meta.target, b"");
    }
}

#[test]
fn a_string_without_a_closing_quote_runs_to_the_end() {
    let mut index = 0;
    assert_eq!(parse_byte_string(&mut index, b"\"abc"), b"abc");
    assert_eq!(index, 4);
    let mut past_the_end = 9;
    assert_eq!(parse_byte_string(&mut past_the_end, b"\"abc"), b"");
    assert_eq!(past_the_end, 10);
}

#[test]
fn an_empty_dictionary_is_an_empty_file() {
    let meta = ArchiveEntryMeta::parse(b"");
    assert_eq!(meta.entry_type, b"file");
    assert_eq!(meta.size, 0);
    assert_eq!(meta.mode, 0o664);
    assert_eq!(meta.name, b"");
    assert_eq!(meta.filter, b"none");
    assert_eq!(meta.crc, 0);
    assert_eq!(meta.target, b"");
}

#[test]
fn every_field_is_read() {
    let meta = ArchiveEntryMeta::parse(
        b"size=12 mode=1234 name=\"n\" type=\"symlink\" target=\"t/u\" filter=\"lz4\" crc=99",
    );
    assert_eq!(meta.entry_type, b"symlink");
    assert_eq!(meta.size, 12);
    assert_eq!(meta.mode, 0o1234);
    assert_eq!(meta.name, b"n");
    assert_eq!(meta.filter, b"lz4");
    assert_eq!(meta.crc, 99);
    assert_eq!(meta.target, b"t/u");
}

#[test]
fn blanks_are_passed_over_also_inside_an_id() {
    let meta = ArchiveEntryMeta::parse(b"   si ze =5  mode=7 leftover");
    assert_eq!(meta.size, 5);
    assert_eq!(meta.mode, 7);
}

#[test]
fn the_last_of_two_equal_fields_counts() {
    assert_eq!(ArchiveEntryMeta::parse(b"size=1 size=2").size, 2);
}

#[test]
fn an_unknown_id_is_named() {
    match ArchiveEntryMeta::try_parse(b"size=1 colour=\"red\"") {
        Err(Malformed::UnknownId(id)) => assert_eq!(id, b"colour"),
        other => panic!("{:?}", other),
    }
}

#[test]
fn a_number_that_does_not_fit_is_refused() {
    for dict in ["size=18446744073709551616", "crc=4294967296", "mode=40000000000"] {
        let read = ArchiveEntryMeta::try_parse(dict.as_bytes());
        assert!(matches!(read, Err(Malformed::NumberTooLarge)));
    }
}
