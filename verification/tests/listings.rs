use ooo::{add_symlink, compress, list, Malformed};

#[test]
fn a_short_listing_shows_names() {
    let mut archive = compress(b"hello", "a.txt", "none", 6, 0o100644).unwrap();
    archive.extend(add_symlink("link", "\"a.txt\"", 0o120777));
    let listing = list(&archive, false);
    assert!(listing.end.is_ok());
    assert_eq!(listing.lines, [b"link".to_vec(), b"a.txt".to_vec()]);
}

#[test]
fn a_verbose_listing_shows_everything() {
    let mut archive = compress(b"hello", "a.txt", "none", 6, 0o100644).unwrap();
    archive.extend(add_symlink("link", "\"a.txt\"", 0o120777));
    let listing = list(&archive, true);
    assert!(listing.end.is_ok());
    assert_eq!(listing.lines.len(), 2);
    assert_eq!(
        String::from_utf8(listing.lines[0].clone()).unwrap(),
        "link (type=\"symlink\" size=0 mode=120777 filter=\"none\" crc=0 target=\"a.txt\") @ offset=66"
    );
    assert_eq!(
        String::from_utf8(listing.lines[1].clone()).unwrap(),
        "a.txt (type=\"file\" size=5 mode=100644 filter=\"none\" crc=907060870 target=\"\") @ offset=0"
    );
}

#[test]
fn bytes_that_are_no_text_are_replaced() {
    let listing = list(b"(name=\"a\xffb\" type=\"x\x80\")", true);
    assert_eq!(
        String::from_utf8(listing.lines[0].clone()).unwrap(),
        "a\u{fffd}b (type=\"x\u{fffd}\" size=0 mode=664 filter=\"none\" crc=0 target=\"\") @ offset=0"
    );
}

#[test]
fn names_in_other_scripts_are_shown() {
    let archive = compress(b"", "h\u{e9}llo", "none", 0, 0).unwrap();
    assert_eq!(list(&archive, false).lines, ["h\u{e9}llo".as_bytes().to_vec()]);
}

#[test]
fn a_listing_stops_at_bytes_that_are_no_entry() {
    let listing = list(b"junk(size=0 name=\"a\")", false);
    assert_eq!(listing.lines, [b"a".to_vec()]);
    assert!(matches!(listing.end, Err(Malformed::NoClosingParenthesis)));
}
