use ooo::{add_symlink, compress, extract, Check, ExtractError, Malformed};

const FILTERS: [&str; 5] = ["none", "zstd", "flate", "lzma", "lz4"];

fn repetitive(length: usize) -> Vec<u8> {
    (0..length).map(|i| (i % 7 + i / 1000) as u8).collect()
}

fn wrapped(data: &[u8], filter: &str, crc: u32) -> Vec<u8> {
    let trailer = format!("(size={} name=\"f\" filter=\"{}\" crc={})", data.len(), filter, crc);
    [data, trailer.as_bytes()].concat()
}

#[test]
fn added_files_come_back_through_every_filter() {
    for filter in FILTERS {
        for length in [0usize, 1, 100, 8192, 8193, 300_000] {
            for level in [0u8, 6, 9] {
                let data = repetitive(length);
                let archive = compress(&data, "f", filter, level, 0o640).unwrap();
                let result = extract(&archive, &vec![]);
                assert!(result.end.is_ok());
                assert_eq!(result.files.len(), 1);
                assert_eq!(result.files[0].name, "f");
                assert_eq!(result.files[0].mode, 0o640);
                assert_eq!(result.files[0].data, data);
                let expected = if length == 0 { Check::Unchecked } else { Check::Matches };
                assert_eq!(result.files[0].check, expected);
            }
        }
    }
}

#[test]
fn filters_make_repetitive_data_smaller() {
    let data = repetitive(300_000);
    for filter in ["zstd", "flate", "lzma", "lz4"] {
        let entry = compress(&data, "f", filter, 6, 0o640).unwrap();
        assert!(entry.len() < data.len() / 10);
        let plain = compress(&data, "f", "none", 6, 0o640).unwrap();
        assert_ne!(entry[..50], plain[..50]);
    }
}

#[test]
fn a_higher_level_is_handed_on() {
    let mut state = 12345u32;
    let data: Vec<u8> = (0..200_000)
        .map(|_| {
            state = state.wrapping_mul(1103515245).wrapping_add(12345);
            b"etaoin shrdlu"[(state >> 16) as usize % 13]
        })
        .collect();
    for filter in ["flate", "lzma", "zstd"] {
        let low = compress(&data, "f", filter, 1, 0).unwrap();
        let high = compress(&data, "f", filter, 9, 0).unwrap();
        assert_ne!(low, high);
    }
}

#[test]
fn streams_of_each_format_are_read() {
    let flate = [203u8, 72, 205, 201, 201, 87, 200, 64, 144, 0];
    let lzma = [
        0xfdu8, 0x37, 0x7a, 0x58, 0x5a, 0x00, 0x00, 0x04, 0xe6, 0xd6, 0xb4, 0x46, 0x02, 0x00, 0x21,
        0x01, 0x16, 0x00, 0x00, 0x00, 0x74, 0x2f, 0xe5, 0xa3, 0xe0, 0x00, 0x10, 0x00, 0x0b, 0x5d,
        0x00, 0x34, 0x19, 0x49, 0xee, 0x8d, 0xe9, 0x4f, 0x7e, 0x15, 0xe0, 0x00, 0x00, 0x00, 0x4b,
        0x88, 0xe6, 0xda, 0x44, 0x80, 0x07, 0x76, 0x00, 0x01, 0x27, 0x11, 0xbc, 0x27, 0xf3, 0x90,
        0x1f, 0xb6, 0xf3, 0x7d, 0x01, 0x00, 0x00, 0x00, 0x00, 0x04, 0x59, 0x5a,
    ];
    for archive in [wrapped(&flate, "flate", 3858335872), wrapped(&lzma, "lzma", 3858335872)] {
        let result = extract(&archive, &vec![]);
        assert!(result.end.is_ok());
        assert_eq!(result.files[0].data, b"hello hello hello");
        assert_eq!(result.files[0].check, Check::Matches);
    }
    let zstd = *b"\x28\xb5\x2f\xfd\x20\x05\x29\x00\x00hello";
    let lz4 = *b"\x04\x22\x4d\x18\x60\x40\x82\x05\x00\x00\x80hello\x00\x00\x00\x00";
    for archive in [wrapped(&zstd, "zstd", 907060870), wrapped(&lz4, "lz4", 907060870)] {
        let result = extract(&archive, &vec![]);
        assert!(result.end.is_ok());
        assert_eq!(result.files[0].data, b"hello");
        assert_eq!(result.files[0].check, Check::Matches);
    }
}

#[test]
fn files_come_out_last_one_first() {
    let mut archive = compress(b"first", "1", "zstd", 6, 0o600).unwrap();
    archive.extend(compress(b"second", "2", "lz4", 6, 0o601).unwrap());
    archive.extend(compress(b"third", "3", "none", 6, 0o602).unwrap());
    let result = extract(&archive, &vec![]);
    assert!(result.end.is_ok());
    let names: Vec<&str> = result.files.iter().map(|f| f.name.as_str()).collect();
    assert_eq!(names, ["3", "2", "1"]);
    assert_eq!(result.files[2].data, b"first");
    assert_eq!(result.files[2].mode, 0o600);
}

#[test]
fn only_files_that_are_asked_for_come_out() {
    let mut archive = compress(b"first", "1", "zstd", 6, 0).unwrap();
    archive.extend(compress(b"second", "2", "lz4", 6, 0).unwrap());
    archive.extend(compress(b"again", "1", "none", 6, 0).unwrap());
    let result = extract(&archive, &vec!["1".to_string(), "9".to_string()]);
    assert!(result.end.is_ok());
    assert_eq!(result.files.len(), 2);
    assert_eq!(result.files[0].data, b"again");
    assert_eq!(result.files[1].data, b"first");
    assert_eq!(extract(&archive, &vec!["none of them".to_string()]).files.len(), 0);
}

#[test]
fn names_with_quotes_and_backslashes_come_back_and_can_be_asked_for() {
    let mut archive = compress(b"first", "a\"b", "zstd", 6, 0).unwrap();
    archive.extend(compress(b"second", "c\\d", "lz4", 6, 0).unwrap());
    let result = extract(&archive, &vec![]);
    assert!(result.end.is_ok());
    assert_eq!(result.files[0].name, "c\\d");
    assert_eq!(result.files[1].name, "a\"b");
    let selected = extract(&archive, &vec!["a\"b".to_string()]);
    assert_eq!(selected.files.len(), 1);
    assert_eq!(selected.files[0].data, b"first");
}

#[test]
fn what_is_wrong_with_other_files_does_not_matter() {
    let mut archive = compress(b"first", "1", "zstd", 6, 0).unwrap();
    archive.extend(wrapped(b"not compressed", "zstd", 1));
    archive.extend(wrapped(b"anything", "none", 1));
    archive.extend(compress(b"second", "2", "lz4", 6, 0).unwrap());
    assert!(extract(&archive, &vec![]).end.is_err());
    let result = extract(&archive, &vec!["1".to_string(), "2".to_string()]);
    assert!(result.end.is_ok());
    assert_eq!(result.files.len(), 2);
    assert_eq!(result.files[0].data, b"second");
    assert_eq!(result.files[1].data, b"first");
}

#[test]
fn flate_and_lz4_take_data_of_every_kind() {
    let mut state = 1u32;
    let noise: Vec<u8> = (0..100_000)
        .map(|_| {
            state = state.wrapping_mul(1664525).wrapping_add(1013904223);
            (state >> 24) as u8
        })
        .collect();
    for (filter, levels) in [("flate", [0u8, 1, 9, 10]), ("lz4", [0, 9, 10, 255])] {
        for level in levels {
            let archive = compress(&noise, "n", filter, level, 0).unwrap();
            assert_eq!(extract(&archive, &vec![]).files[0].data, noise);
        }
    }
}

#[test]
fn combined_archives_give_the_files_of_both() {
    let a = compress(b"first", "1", "zstd", 6, 0).unwrap();
    let b = compress(b"second", "2", "lzma", 6, 0).unwrap();
    let result = extract(&[a, b].concat(), &vec![]);
    assert!(result.end.is_ok());
    assert_eq!(result.files.len(), 2);
    assert_eq!(result.files[0].data, b"second");
    assert_eq!(result.files[1].data, b"first");
}

#[test]
fn a_symlink_comes_out_as_an_empty_file() {
    let result = extract(&add_symlink("link", "\"to\"", 0o777), &vec![]);
    assert!(result.end.is_ok());
    assert_eq!(result.files[0].name, "link");
    assert_eq!(result.files[0].data, b"");
    assert_eq!(result.files[0].check, Check::Unchecked);
}

#[test]
fn a_changed_byte_is_reported_after_all_files() {
    let mut archive = compress(b"first", "1", "none", 6, 0).unwrap();
    archive.extend(compress(b"second", "2", "none", 6, 0).unwrap());
    let changed = archive.len() - compress(b"second", "2", "none", 6, 0).unwrap().len();
    archive[changed] = b'S';
    let result = extract(&archive, &vec![]);
    assert!(matches!(result.end, Err(ExtractError::Corrupted)));
    assert_eq!(result.files.len(), 2);
    assert_eq!(result.files[0].data, b"Second");
    assert_eq!(result.files[0].check, Check::Corrupted);
    assert_eq!(result.files[1].check, Check::Matches);
    assert!(extract(&archive, &vec!["1".to_string()]).end.is_ok());
}

#[test]
fn without_a_checksum_nothing_is_checked() {
    let result = extract(&wrapped(b"anything", "none", 0), &vec![]);
    assert!(result.end.is_ok());
    assert_eq!(result.files[0].data, b"anything");
    assert_eq!(result.files[0].check, Check::Unchecked);
}

#[test]
fn checksums_are_those_of_the_known_example() {
    let result = extract(&wrapped(b"123456789", "none", 3421780262), &vec![]);
    assert_eq!(result.files[0].check, Check::Matches);
}

#[test]
fn damaged_data_stops_the_extraction() {
    for filter in ["zstd", "lzma", "lz4"] {
        let mut archive = compress(b"first", "1", "none", 6, 0).unwrap();
        archive.extend(wrapped(b"not compressed", filter, 1));
        let result = extract(&archive, &vec![]);
        assert!(matches!(result.end, Err(ExtractError::Codec(_))));
        assert_eq!(result.files.len(), 1);
        assert_eq!(result.files[0].name, "f");
        assert_eq!(result.files[0].check, Check::Failed);
    }
    let result = extract(&wrapped(b"\xff\xff\xff", "flate", 1), &vec![]);
    assert!(matches!(result.end, Err(ExtractError::Codec(_))));
}

#[test]
fn an_unknown_filter_stops_the_extraction() {
    let mut archive = compress(b"first", "1", "none", 6, 0).unwrap();
    archive.extend(b"abc(size=3 name=\"u\" mode=7 filter=\"gzip\")");
    let result = extract(&archive, &vec![]);
    match result.end {
        Err(ExtractError::UnknownFilter(filter)) => assert_eq!(filter, b"gzip"),
        other => panic!("{:?}", other),
    }
    assert_eq!(result.files.len(), 1);
    assert_eq!(result.files[0].name, "u");
    assert_eq!(result.files[0].mode, 7);
    assert_eq!(result.files[0].data, b"");
    assert_eq!(result.files[0].check, Check::Failed);
    assert!(extract(&archive, &vec!["1".to_string()]).end.is_ok());
}

#[test]
fn a_name_that_is_no_text_stops_the_extraction() {
    let mut archive = compress(b"first", "1", "none", 6, 0).unwrap();
    archive.extend(b"(name=\"\xff\")");
    archive.extend(compress(b"last", "3", "none", 6, 0).unwrap());
    let result = extract(&archive, &vec!["1".to_string(), "3".to_string()]);
    assert!(matches!(result.end, Err(ExtractError::InvalidName(_))));
    assert_eq!(result.files.len(), 1);
    assert_eq!(result.files[0].data, b"last");
}

#[test]
fn names_with_control_characters_come_back_and_can_be_asked_for() {
    let archive = compress(b"x", "line\nfeed\u{7f}", "lz4", 0, 0).unwrap();
    let result = extract(&archive, &vec!["line\nfeed\u{7f}".to_string()]);
    assert!(result.end.is_ok());
    assert_eq!(result.files[0].name, "line\nfeed\u{7f}");
}

#[test]
fn names_in_other_scripts_come_back() {
    let archive = compress(b"x", "\u{e9}\u{4e2d}", "none", 0, 0).unwrap();
    assert_eq!(extract(&archive, &vec![]).files[0].name, "\u{e9}\u{4e2d}");
}

#[test]
fn bytes_that_are_no_entry_stop_the_extraction() {
    let mut archive = b"junk".to_vec();
    archive.extend(compress(b"last", "3", "none", 6, 0).unwrap());
    let result = extract(&archive, &vec![]);
    assert!(matches!(
        result.end,
        Err(ExtractError::Malformed(Malformed::NoClosingParenthesis))
    ));
    assert_eq!(result.files.len(), 1);
    assert_eq!(result.files[0].data, b"last");
}
