//! Characters that are written as their numbers: `\u{7f}`.
use vstd::prelude::*;
use vstd::utf8::*;

use crate::bytes::rest;

verus! {

/// `{`, which opens the number of a character.
pub const BRACE_OPEN: u8 = 0x7b;

/// `}`, which closes the number of a character.
pub const BRACE_CLOSE: u8 = 0x7d;

/// Whether `c` is a digit of a hexadecimal number.
pub open spec fn is_hex(c: u8) -> bool {
    0x30 <= c <= 0x39 || 0x61 <= c <= 0x66
}

/// The value of a hexadecimal digit.
pub open spec fn hex_digit(c: u8) -> nat {
    if c <= 0x39 {
        (c - 0x30) as nat
    } else {
        (c - 0x61 + 10) as nat
    }
}

/// How many hexadecimal digits `s` starts with.
pub open spec fn hex_count(s: Seq<u8>) -> nat
    decreases s.len(),
{
    if s.len() > 0 && is_hex(s[0]) {
        1 + hex_count(s.drop_first())
    } else {
        0
    }
}

/// The number that a string of hexadecimal digits stands for.
pub open spec fn hex_value(s: Seq<u8>) -> nat
    decreases s.len(),
{
    if s.len() == 0 {
        0
    } else {
        hex_value(s.drop_last()) * 16 + hex_digit(s.last())
    }
}

/// The bytes that the escape sequence `\u{..}` at the start of `s` stands for,
/// and how long it is; `None` where there is no such sequence with one to six
/// digits that are the number of a character. The first two bytes of `s` are
/// not looked at.
pub open spec fn unicode_escape(s: Seq<u8>) -> Option<(Seq<u8>, nat)> {
    let n = hex_count(rest(s, 3)) as int;
    let value = hex_value(s.subrange(3, 3 + n));
    if s.len() > 2 && s[2] == BRACE_OPEN && 1 <= n <= 6 && 3 + n < s.len() && s[3 + n]
        == BRACE_CLOSE && is_scalar(value as u32) {
        Some((encode_scalar(value as u32), (n + 4) as nat))
    } else {
        None
    }
}

/// A run of digits that ends at the end of `s` or before something else.
pub proof fn lemma_hex_count_is(s: Seq<u8>, n: int)
    requires
        0 <= n <= s.len(),
        forall|i: int| 0 <= i < n ==> is_hex(#[trigger] s[i]),
        n < s.len() ==> !is_hex(s[n]),
    ensures
        hex_count(s) == n,
    decreases n,
{
    if n > 0 {
        let t = s.drop_first();
        assert forall|i: int| 0 <= i < n - 1 implies is_hex(#[trigger] t[i]) by {
            assert(t[i] == s[i + 1]);
        }
        assert(is_hex(s[0]));
        lemma_hex_count_is(t, n - 1);
    }
}

/// All digits of a run are counted.
proof fn lemma_hex_count_at_least(s: Seq<u8>, n: int)
    requires
        0 <= n <= s.len(),
        forall|i: int| 0 <= i < n ==> is_hex(#[trigger] s[i]),
    ensures
        hex_count(s) >= n,
    decreases n,
{
    if n > 0 {
        let t = s.drop_first();
        assert forall|i: int| 0 <= i < n - 1 implies is_hex(#[trigger] t[i]) by {
            assert(t[i] == s[i + 1]);
        }
        assert(is_hex(s[0]));
        lemma_hex_count_at_least(t, n - 1);
    }
}

/// The UTF-8 bytes of the character with the number `scalar`.
pub fn scalar_bytes(scalar: u32) -> (bytes: Vec<u8>)
    ensures
        bytes@ == encode_scalar(scalar),
{
    let mut bytes: Vec<u8> = Vec::new();
    if scalar <= 0x7f {
        bytes.push((scalar & 0x7F) as u8);
    } else if scalar <= 0x7ff {
        bytes.push(0xC0 | ((scalar >> 6) & 0x1F) as u8);
        bytes.push(0x80 | (scalar & 0x3F) as u8);
    } else if scalar <= 0xffff && !(0xd800 <= scalar && scalar <= 0xdfff) {
        bytes.push(0xE0 | ((scalar >> 12) & 0x0F) as u8);
        bytes.push(0x80 | ((scalar >> 6) & 0x3F) as u8);
        bytes.push(0x80 | (scalar & 0x3F) as u8);
    } else {
        bytes.push(0xF0 | ((scalar >> 18) & 0x7) as u8);
        bytes.push(0x80 | ((scalar >> 12) & 0x3F) as u8);
        bytes.push(0x80 | ((scalar >> 6) & 0x3F) as u8);
        bytes.push(0x80 | (scalar & 0x3F) as u8);
    }
    assert(bytes@ =~= encode_scalar(scalar));
    bytes
}

/// Reads the hexadecimal digits of `dict` from `start` on, seven at most, and
/// gives their number and how many there are.
fn hex_at(dict: &[u8], start: usize) -> (found: (u32, usize))
    requires
        start <= dict@.len(),
    ensures
        ({
            let s = rest(dict@, start as int);
            if hex_count(s) <= 6 {
                found.1 == hex_count(s) && found.0 == hex_value(s.take(found.1 as int))
            } else {
                found.1 == 7
            }
        }),
        start + found.1 <= dict@.len(),
{
    let mut n: usize = 0;
    let mut value: u32 = 0;
    let ghost s = rest(dict@, start as int);
    while n < 7 && n < dict.len() - start && is_hex_digit(dict[start + n])
        invariant
            start <= dict@.len(),
            s == rest(dict@, start as int),
            n <= 7,
            start + n <= dict@.len(),
            forall|i: int| 0 <= i < n ==> is_hex(#[trigger] s[i]),
            value == hex_value(s.take(n as int)),
            n == 0 ==> value == 0,
            n == 1 ==> value < 0x10,
            n == 2 ==> value < 0x100,
            n == 3 ==> value < 0x1000,
            n == 4 ==> value < 0x1_0000,
            n == 5 ==> value < 0x10_0000,
            n == 6 ==> value < 0x100_0000,
            n == 7 ==> value < 0x1000_0000,
        decreases 7 - n,
    {
        let c: u8 = dict[start + n];
        let digit: u32 = if c <= 0x39 {
            (c - 0x30) as u32
        } else {
            (c - 0x61 + 10) as u32
        };
        assert(s[n as int] == c);
        assert(s.take(n + 1).drop_last() =~= s.take(n as int));
        assert(s.take(n + 1).last() == c);
        value = value * 16 + digit;
        n += 1;
    }
    proof {
        lemma_hex_count_at_least(s, n as int);
        if n < 7 {
            if n < s.len() {
                assert(s[n as int] == dict@[start + n]);
            }
            lemma_hex_count_is(s, n as int);
        }
    }
    (value, n)
}

/// Whether `c` is a hexadecimal digit.
fn is_hex_digit(c: u8) -> (is: bool)
    ensures
        is == is_hex(c),
{
    (0x30 <= c && c <= 0x39) || (0x61 <= c && c <= 0x66)
}

/// Whether `value` is the number of a character.
fn is_character(value: u32) -> (is: bool)
    ensures
        is == is_scalar(value),
{
    value <= 0xd7ff || (0xe000 <= value && value <= 0x10_ffff)
}

/// Reads the escape sequence `\u{..}` whose backslash stands at `start`.
pub fn unicode_at(dict: &[u8], start: usize) -> (found: Option<(Vec<u8>, usize)>)
    requires
        start < dict@.len(),
    ensures
        match found {
            Some((bytes, n)) => unicode_escape(rest(dict@, start as int)) == Some(
                (bytes@, n as nat),
            ),
            None => unicode_escape(rest(dict@, start as int)) is None,
        },
{
    let ghost s = rest(dict@, start as int);
    if dict.len() - start <= 3 || dict[start + 2] != BRACE_OPEN {
        proof {
            if s.len() == 3 {
                assert(rest(s, 3) =~= Seq::<u8>::empty());
            }
        }
        return None;
    }
    assert(rest(s, 3) =~= rest(dict@, start + 3));
    let (value, n) = hex_at(dict, start + 3);
    if n < 1 || n > 6 || dict.len() - start <= 3 + n || dict[start + 3 + n] != BRACE_CLOSE
        || !is_character(value) {
        assert(n <= 6 ==> s.subrange(3, 3 + n) =~= rest(s, 3).take(n as int));
        return None;
    }
    assert(s.subrange(3, 3 + n) =~= rest(s, 3).take(n as int));
    Some((scalar_bytes(value), n + 4))
}

} // verus!
