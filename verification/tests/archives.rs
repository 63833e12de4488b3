use ooo::{add_symlink, compress, list, walk_through_archive, CompressError, Malformed};

#[test]
fn a_plain_file_is_its_data_and_a_trailer() {
    let entry = compress(b"hello", "a.txt", "none", 6, 0o100644).unwrap();
    assert_eq!(
        entry,
        b"hello(size=5 name=\"a.txt\" mode=100644 filter=\"none\" crc=907060870)"
    );
}

#[test]
fn an_empty_file_has_checksum_zero() {
    let entry = compress(b"", "e", "none", 0, 0o600).unwrap();
    assert_eq!(entry, b"(size=0 name=\"e\" mode=600 filter=\"none\" crc=0)");
}

#[test]
fn names_are_shown_with_escapes() {
    let entry = compress(b"", "a\"b\\c\n", "none", 0, 0).unwrap();
    assert_eq!(
        entry,
        b"(size=0 name=\"a\\\"b\\\\c\\n\" mode=0 filter=\"none\" crc=0)"
    );
}

#[test]
fn plain_characters_are_shown_as_they_are() {
    let mut name = String::new();
    for c in ' '..='~' {
        if c != '"' && c != '\\' {
            name.push(c);
        }
    }
    let entry = add_symlink(&name, "\"t\"", 0o777);
    let expected = format!("(name=\"{}\" type=\"symlink\" target=\"t\" mode=777)", name);
    assert_eq!(entry, expected.as_bytes());
}

#[test]
fn a_symlink_is_a_trailer_alone() {
    assert_eq!(
        add_symlink("link", "\"to/there\"", 0o120777),
        b"(name=\"link\" type=\"symlink\" target=\"to/there\" mode=120777)"
    );
}

#[test]
fn an_unknown_filter_is_refused() {
    match compress(b"hello", "a", "gzip", 6, 0o644) {
        Err(CompressError::UnknownFilter(name)) => assert_eq!(name, "gzip"),
        other => panic!("{:?}", other),
    }
}

#[test]
fn an_empty_archive_has_no_entries() {
    let found = walk_through_archive(b"");
    assert_eq!(found.entries.len(), 0);
    assert!(found.end.is_ok());
}

#[test]
fn a_written_file_reads_back() {
    let found =
        walk_through_archive(&compress(b"hello", "d/a (1).txt", "none", 6, 0o100644).unwrap());
    assert!(found.end.is_ok());
    assert_eq!(found.entries.len(), 1);
    let entry = &found.entries[0];
    assert_eq!(entry.offset, 0);
    assert_eq!(entry.meta.entry_type, b"file");
    assert_eq!(entry.meta.size, 5);
    assert_eq!(entry.meta.mode, 0o100644);
    assert_eq!(entry.meta.name, b"d/a (1).txt");
    assert_eq!(entry.meta.filter, b"none");
    assert_eq!(entry.meta.crc, 907060870);
    assert_eq!(entry.meta.target, b"");
}

#[test]
fn a_written_symlink_reads_back() {
    let found = walk_through_archive(&add_symlink("link", "\"to\"", 0o777));
    assert!(found.end.is_ok());
    assert_eq!(found.entries.len(), 1);
    let entry = &found.entries[0];
    assert_eq!(entry.offset, 0);
    assert_eq!(entry.meta.entry_type, b"symlink");
    assert_eq!(entry.meta.size, 0);
    assert_eq!(entry.meta.mode, 0o777);
    assert_eq!(entry.meta.name, b"link");
    assert_eq!(entry.meta.filter, b"none");
    assert_eq!(entry.meta.crc, 0);
    assert_eq!(entry.meta.target, b"to");
}

#[test]
fn quotes_and_backslashes_in_names_read_back() {
    for name in ["a\"b", "a\\b", "\\\"\\\\\"", "a\\", "\"", "c:\\d (1)\\\"e\".txt"] {
        let archive = compress(b"data", name, "none", 0, 0).unwrap();
        let found = walk_through_archive(&archive);
        assert!(found.end.is_ok());
        assert_eq!(found.entries.len(), 1);
        assert_eq!(found.entries[0].meta.name, name.as_bytes());
        assert_eq!(list(&archive, false).lines, [name.as_bytes().to_vec()]);
    }
}

#[test]
fn names_of_every_kind_read_back() {
    for name in ["a\nb", "\t\r\0", "\u{7f}\u{200b}", "e\u{301}", "\u{301}", "it's", "h\u{e9}\u{4e2d}"] {
        let archive = compress(b"data", name, "zstd", 6, 0o640).unwrap();
        let found = walk_through_archive(&archive);
        assert!(found.end.is_ok());
        assert_eq!(found.entries[0].meta.name, name.as_bytes());
        assert_eq!(found.entries[0].meta.mode, 0o640);
        assert_eq!(found.entries[0].meta.filter, b"zstd");
        assert_eq!(list(&archive, false).lines, [name.as_bytes().to_vec()]);
    }
}

#[test]
fn quotes_and_backslashes_in_targets_read_back() {
    let shown = format!("{:?}", std::path::Path::new("to \"there\\"));
    let found = walk_through_archive(&add_symlink("l\"\\", &shown, 0o777));
    assert_eq!(found.entries[0].meta.name, b"l\"\\");
    assert_eq!(found.entries[0].meta.target, b"to \"there\\");
    let shown = format!("{:?}", std::path::Path::new("it's\n\u{301}"));
    let found = walk_through_archive(&add_symlink("l", &shown, 0o777));
    assert_eq!(found.entries[0].meta.target, "it's\n\u{301}".as_bytes());
}

#[test]
fn entries_fill_an_archive_without_gaps() {
    let mut archive = compress(b"first", "1", "none", 0, 0).unwrap();
    archive.extend(add_symlink("link", "\"1\"", 0));
    archive.extend(compress(b"second", "2", "none", 0, 0).unwrap());
    let mut end = archive.len();
    for entry in walk_through_archive(&archive).entries {
        let open = (entry.offset + entry.meta.size) as usize;
        assert_eq!(archive[open], b'(');
        assert_eq!(archive[end - 1], b')');
        let meta = ooo::ArchiveEntryMeta::parse(&archive[open + 1..end - 1]);
        assert_eq!(meta.name, entry.meta.name);
        end = entry.offset as usize;
    }
    assert_eq!(end, 0);
}

#[test]
fn an_open_parenthesis_in_a_name_breaks_its_entry() {
    let found = walk_through_archive(&compress(b"", "a(b", "none", 0, 0).unwrap());
    assert_eq!(found.entries.len(), 0);
    assert!(found.end.is_err());
}

#[test]
fn entries_come_last_one_first_and_lie_apart() {
    let mut archive = compress(b"first", "1", "none", 0, 0).unwrap();
    let length = archive.len() as u64;
    archive.extend(compress(b"second", "2", "none", 0, 0).unwrap());
    let found = walk_through_archive(&archive);
    assert!(found.end.is_ok());
    assert_eq!(found.entries.len(), 2);
    assert_eq!(found.entries[0].meta.name, b"2");
    assert_eq!(found.entries[0].offset, length);
    assert_eq!(found.entries[1].meta.name, b"1");
    assert_eq!(found.entries[1].offset, 0);
}

#[test]
fn an_entry_reads_the_same_behind_other_bytes() {
    let mut archive = b"no entry at all".to_vec();
    archive.extend(compress(b"data", "a", "none", 0, 0o644).unwrap());
    let found = walk_through_archive(&archive);
    assert_eq!(found.entries.len(), 1);
    assert_eq!(found.entries[0].meta.name, b"a");
    assert_eq!(found.entries[0].offset, 15);
    assert!(matches!(found.end, Err(Malformed::NoClosingParenthesis)));
}

#[test]
fn archives_are_combined_by_writing_one_after_the_other() {
    let mut a = compress(b"first", "1", "none", 0, 0).unwrap();
    a.extend(add_symlink("link", "\"1\"", 0));
    let b = compress(b"second", "2", "none", 0, 0).unwrap();
    let both = [a.clone(), b.clone()].concat();
    let mut names = list(&b, false).lines;
    names.extend(list(&a, false).lines);
    let listing = list(&both, false);
    assert!(listing.end.is_ok());
    assert_eq!(listing.lines, names);
    assert_eq!(listing.lines, [b"2".to_vec(), b"link".to_vec(), b"1".to_vec()]);
    assert_eq!(walk_through_archive(&both).entries[0].offset, a.len() as u64);
}

#[test]
fn bytes_that_are_no_archive_are_told_apart() {
    assert!(matches!(walk_through_archive(b"abc").end, Err(Malformed::NoClosingParenthesis)));
    assert!(matches!(walk_through_archive(b"abc)").end, Err(Malformed::NoOpeningParenthesis)));
    assert!(matches!(walk_through_archive(b"(a))").end, Err(Malformed::NoOpeningParenthesis)));
    assert!(matches!(walk_through_archive(b")").end, Err(Malformed::NoOpeningParenthesis)));
    assert!(matches!(walk_through_archive(b"(x=1)").end, Err(Malformed::UnknownId(_))));
    assert!(matches!(walk_through_archive(b"(crc=4294967296)").end, Err(Malformed::NumberTooLarge)));
    assert!(matches!(walk_through_archive(b"12(size=3)").end, Err(Malformed::SizeTooLarge)));
}

#[test]
fn data_may_hold_parentheses() {
    let found = walk_through_archive(b"))((size=3 name=\"p\")");
    assert!(found.end.is_ok());
    assert_eq!(found.entries.len(), 1);
    assert_eq!(found.entries[0].meta.size, 3);
    assert_eq!(found.entries[0].offset, 0);
}
