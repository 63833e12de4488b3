use ooo::number::{push_number, read_number};
use ooo::{parse_mode, parse_u32, parse_u64};

#[test]
fn a_number_ends_at_the_first_other_byte() {
    let mut index = 5;
    assert_eq!(parse_u64(&mut index, b"size=12 mode=7"), 12);
    assert_eq!(index, 7);
}

#[test]
fn a_number_may_end_the_dictionary() {
    let mut index = 4;
    assert_eq!(parse_u32(&mut index, b"crc=907060870"), 907060870);
    assert_eq!(index, 13);
}

#[test]
fn no_digits_are_zero() {
    let mut index = 4;
    assert_eq!(parse_u32(&mut index, b"crc= size=3"), 0);
    assert_eq!(index, 4);
    let mut past_the_end = 40;
    assert_eq!(parse_u64(&mut past_the_end, b"size=3"), 0);
    assert_eq!(past_the_end, 40);
}

#[test]
fn leading_zeros_are_digits_too() {
    let mut index = 0;
    assert_eq!(parse_u64(&mut index, b"000000000000000000000000000042)"), 42);
    assert_eq!(index, 30);
}

#[test]
fn modes_are_octal() {
    let mut index = 5;
    assert_eq!(parse_mode(&mut index, b"mode=100644 "), 0o100644);
    assert_eq!(index, 11);
    let mut at_an_eight = 0;
    assert_eq!(parse_mode(&mut at_an_eight, b"78"), 7);
    assert_eq!(at_an_eight, 1);
}

#[test]
fn the_largest_numbers_fit() {
    let mut index = 0;
    assert_eq!(parse_u64(&mut index, b"18446744073709551615"), u64::MAX);
    index = 0;
    assert_eq!(parse_u32(&mut index, b"4294967295"), u32::MAX);
    index = 0;
    assert_eq!(parse_mode(&mut index, b"37777777777"), u32::MAX);
}

#[test]
fn larger_numbers_are_refused() {
    let mut index = 0;
    assert_eq!(read_number(&mut index, b"18446744073709551616", 10, u64::MAX), None);
    assert_eq!(read_number(&mut index, b"99999999999999999999999", 10, u64::MAX), None);
    assert_eq!(read_number(&mut index, b"4294967296", 10, u32::MAX as u64), None);
    assert_eq!(read_number(&mut index, b"40000000000", 8, u32::MAX as u64), None);
    assert_eq!(index, 0);
}

#[test]
fn written_numbers_read_back() {
    for n in [0u64, 1, 7, 8, 9, 10, 12345, u32::MAX as u64, u64::MAX] {
        for base in [2u64, 8, 10] {
            let mut out = b"n=".to_vec();
            push_number(&mut out, n, base);
            out.push(b' ');
            let mut index = 2;
            assert_eq!(read_number(&mut index, &out, base, u64::MAX), Some(n));
            assert_eq!(index, out.len() - 1);
        }
    }
    let mut decimal = Vec::new();
    push_number(&mut decimal, 907060870, 10);
    assert_eq!(decimal, b"907060870");
    let mut octal = Vec::new();
    push_number(&mut octal, 0o100644, 8);
    assert_eq!(octal, b"100644");
}
