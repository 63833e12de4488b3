//! What numbers and strings in a trailer are read as.
use vstd::prelude::*;
use vstd::utf8::*;

use crate::bytes::rest;
use crate::escapes::lemma_bare_prefix;
use crate::number::{
    digit_count,
    digits,
    digits_value,
    is_digit,
    leading_number,
    lemma_digits,
    lemma_leading_digits,
};
use crate::text::{escape, string_extent, string_value};
use crate::unicode::{hex_value, is_hex, lemma_hex_count_is, unicode_escape};

verus! {

proof fn lemma_value_is_positional(s: Seq<u8>, base: nat)
    requires
        forall|i: int| 0 <= i < s.len() ==> is_digit(#[trigger] s[i], base),
    ensures
        digits_value(s, base) == s.fold_left(0int, |n: int, c: u8| n * base + (c - 0x30)),
    decreases s.len(),
{
    if s.len() > 0 {
        let t = s.drop_last();
        assert forall|i: int| 0 <= i < t.len() implies is_digit(#[trigger] t[i], base) by {
            assert(t[i] == s[i]);
        }
        lemma_value_is_positional(t, base);
        assert(is_digit(s[s.len() - 1], base));
        let before = digits_value(t, base);
        assert(before * base >= 0) by (nonlinear_arith)
            requires
                before >= 0,
                base >= 0,
        ;
    }
}

/// A number is written in digits of its base, the highest one first, and
/// without leading zeros.
pub proof fn law_numbers_are_positional(n: nat, base: nat)
    requires
        2 <= base <= 10,
    ensures
        digits(n, base).len() > 0,
        forall|i: int|
            0 <= i < digits(n, base).len() ==> 0x30 <= #[trigger] digits(n, base)[i] < 0x30 + base,
        digits(n, base).fold_left(0int, |m: int, c: u8| m * base + (c - 0x30)) == n,
        digits(n, base).len() > 1 ==> digits(n, base)[0] != 0x30,
    decreases n,
{
    lemma_digits(n, base);
    lemma_value_is_positional(digits(n, base), base);
    assert forall|i: int| 0 <= i < digits(n, base).len() implies 0x30 <= #[trigger] digits(
        n,
        base,
    )[i] < 0x30 + base by {
        assert(is_digit(digits(n, base)[i], base));
    }
    if n >= base {
        vstd::arithmetic::div_mod::lemma_div_decreases(n as int, base as int);
        vstd::arithmetic::div_mod::lemma_div_non_zero(n as int, base as int);
        law_numbers_are_positional(n / base, base);
        assert(digits(n, base)[0] == digits(n / base, base)[0]);
        let m = n / base;
        if m >= base {
            vstd::arithmetic::div_mod::lemma_div_decreases(m as int, base as int);
            lemma_digits(m / base, base);
            assert(digits(m, base).len() > 1);
        } else {
            assert(digits(m, base)[0] == 0x30 + m);
        }
    }
}

/// A number is read from the digits that the bytes start with, all of them and
/// no others; leading zeros do no harm.
pub proof fn law_leading_digits_are_read(written: Seq<u8>, base: nat, after: Seq<u8>)
    requires
        2 <= base <= 10,
        forall|i: int| 0 <= i < written.len() ==> 0x30 <= #[trigger] written[i] < 0x30 + base,
        after.len() > 0 ==> !(0x30 <= after[0] < 0x30 + base),
    ensures
        digit_count(written + after, base) == written.len(),
        leading_number(written + after, base) == written.fold_left(
            0int,
            |n: int, c: u8| n * base + (c - 0x30),
        ),
{
    assert forall|i: int| 0 <= i < written.len() implies is_digit(#[trigger] written[i], base) by {
        assert(0x30 <= written[i] < 0x30 + base);
    }
    lemma_leading_digits(written, base, after);
    lemma_value_is_positional(written, base);
}

/// What is read from a position on is what stands from there on, and nothing
/// past the end.
pub proof fn law_reading_starts_at_the_position(s: Seq<u8>, i: int)
    ensures
        0 <= i <= s.len() ==> rest(s, i) == s.skip(i),
        i > s.len() ==> rest(s, i).len() == 0,
{
}

/// Bytes other than quotes and backslashes stand for themselves, a quote ends a
/// string and one more byte is passed over, and a string without a closing
/// quote runs to the end.
pub proof fn law_plain_bytes_stand_for_themselves(s: Seq<u8>, after: Seq<u8>)
    requires
        forall|i: int| 0 <= i < s.len() ==> #[trigger] s[i] != 0x22 && s[i] != 0x5c,
    ensures
        string_value(s + after) == s + string_value(after),
        string_extent(s + after) == s.len() + string_extent(after),
        string_value(s + (seq![0x22u8] + after)) == s,
        string_extent(s + (seq![0x22u8] + after)) == s.len() + 2,
        string_value(s) == s,
        string_extent(s) == s.len(),
{
    let closed = seq![0x22u8] + after;
    let none = Seq::<u8>::empty();
    lemma_bare_prefix(s, after);
    lemma_bare_prefix(s, closed);
    lemma_bare_prefix(s, none);
    assert(closed[0] == 0x22);
    assert(s + none =~= s);
}

/// A backslash and one of seven bytes stand for one byte: a quote, a backslash
/// and an apostrophe for themselves, and `n`, `r`, `t` and `0` for a line feed,
/// a carriage return, a tab and a zero.
pub proof fn law_escapes_stand_for_bytes(c: u8, meant: u8, after: Seq<u8>)
    requires
        (c == 0x22 && meant == 0x22) || (c == 0x5c && meant == 0x5c) || (c == 0x27 && meant == 0x27)
            || (c == 0x6e && meant == 0x0a) || (c == 0x72 && meant == 0x0d) || (c == 0x74 && meant
            == 0x09) || (c == 0x30 && meant == 0x00),
    ensures
        string_value(seq![0x5cu8, c] + after) == seq![meant] + string_value(after),
        string_extent(seq![0x5cu8, c] + after) == 2 + string_extent(after),
{
    let s = seq![0x5cu8, c] + after;
    assert(s[0] == 0x5c && s[1] == c);
    assert(rest(s, 2) =~= after);
}

/// A backslash that starts no escape sequence stands for itself, and hides the
/// byte after it if there is one.
pub proof fn law_other_backslashes_stand_for_themselves(c: u8, after: Seq<u8>)
    requires
        c != 0x22,
        c != 0x5c,
        c != 0x27,
        c != 0x6e,
        c != 0x72,
        c != 0x74,
        c != 0x30,
        c == 0x75 ==> (after.len() == 0 || after[0] != 0x7b),
    ensures
        string_value(seq![0x5cu8, c] + after) == seq![0x5cu8] + string_value(after),
        string_extent(seq![0x5cu8, c] + after) == 2 + string_extent(after),
        string_value(seq![0x5cu8]) == seq![0x5cu8],
        string_extent(seq![0x5cu8]) == 2,
{
    let s = seq![0x5cu8, c] + after;
    assert(s[0] == 0x5c && s[1] == c);
    assert(after.len() > 0 ==> s[2] == after[0]);
    assert(rest(s, 2) =~= after);
    let lone = seq![0x5cu8];
    assert(lone[0] == 0x5c);
    assert(escape(lone) is None);
    assert(rest(lone, 2) =~= Seq::<u8>::empty());
    assert(string_value(Seq::<u8>::empty()) =~= Seq::<u8>::empty());
    assert(string_extent(Seq::<u8>::empty()) == 0);
    assert(string_value(lone) =~= lone);
}

proof fn lemma_hex_is_positional(s: Seq<u8>)
    requires
        forall|i: int| 0 <= i < s.len() ==> is_hex(#[trigger] s[i]),
    ensures
        hex_value(s) == s.fold_left(
            0int,
            |n: int, c: u8|
                n * 16 + if c <= 0x39 {
                    c - 0x30
                } else {
                    c - 0x57
                },
        ),
    decreases s.len(),
{
    if s.len() > 0 {
        let t = s.drop_last();
        assert forall|i: int| 0 <= i < t.len() implies is_hex(#[trigger] t[i]) by {
            assert(t[i] == s[i]);
        }
        lemma_hex_is_positional(t);
        assert(is_hex(s[s.len() - 1]));
    }
}

/// A backslash, a `u` and the hexadecimal number of a character in braces, with
/// one to six digits, stand for the UTF-8 bytes of the character.
pub proof fn law_numbered_characters_are_read(hex: Seq<u8>, c: char, after: Seq<u8>)
    requires
        1 <= hex.len() <= 6,
        forall|i: int|
            0 <= i < hex.len() ==> 0x30 <= #[trigger] hex[i] <= 0x39 || 0x61 <= hex[i] <= 0x66,
        hex.fold_left(
            0int,
            |n: int, d: u8|
                n * 16 + if d <= 0x39 {
                    d - 0x30
                } else {
                    d - 0x57
                },
        ) == c as int,
    ensures
        string_value(seq![0x5cu8, 0x75, 0x7b] + hex + seq![0x7du8] + after) == encode_utf8(seq![c])
            + string_value(after),
        string_extent(seq![0x5cu8, 0x75, 0x7b] + hex + seq![0x7du8] + after) == hex.len() + 4
            + string_extent(after),
{
    let s = seq![0x5cu8, 0x75, 0x7b] + hex + seq![0x7du8] + after;
    let n = hex.len() as int;
    let tail = rest(s, 3);
    assert forall|i: int| 0 <= i < hex.len() implies is_hex(#[trigger] hex[i]) by {
    }
    lemma_hex_is_positional(hex);
    assert(tail =~= hex + (seq![0x7du8] + after));
    assert forall|i: int| 0 <= i < n implies is_hex(#[trigger] tail[i]) by {
        assert(tail[i] == hex[i]);
    }
    assert(tail[n] == 0x7d);
    lemma_hex_count_is(tail, n);
    assert(s.subrange(3, 3 + n) =~= hex);
    assert(s[0] == 0x5c && s[1] == 0x75 && s[2] == 0x7b && s[3 + n] == 0x7d);
    char_is_scalar(c);
    assert(hex_value(hex) as u32 == c as u32);
    assert(rest(s, n + 4) =~= after);
    assert(encode_utf8(seq![c]) == encode_scalar(c as u32)) by {
        reveal_with_fuel(encode_utf8, 2);
        assert(seq![c].drop_first() =~= Seq::<char>::empty());
        assert(encode_utf8(seq![c]) =~= encode_scalar(c as u32));
    }
    assert(escape(s) == Some((encode_scalar(c as u32), (n + 4) as nat)));
}

/// A backslash and a `u` before braces that hold no number of a character are no
/// escape sequence.
pub proof fn law_bad_numbers_are_no_characters(hex: Seq<u8>, after: Seq<u8>)
    requires
        forall|i: int|
            0 <= i < hex.len() ==> 0x30 <= #[trigger] hex[i] <= 0x39 || 0x61 <= hex[i] <= 0x66,
        after.len() > 0 ==> !(0x30 <= after[0] <= 0x39 || 0x61 <= after[0] <= 0x66),
        ({
            let number = hex.fold_left(
                0int,
                |n: int, d: u8|
                    n * 16 + if d <= 0x39 {
                        d - 0x30
                    } else {
                        d - 0x57
                    },
            );
            ||| hex.len() == 0
            ||| hex.len() > 6
            ||| after.len() == 0
            ||| after[0] != 0x7d
            ||| 0xd800 <= number <= 0xdfff
            ||| 0x10ffff < number <= u32::MAX
        }),
    ensures
        string_value(seq![0x5cu8, 0x75, 0x7b] + hex + after) == seq![0x5cu8] + string_value(
            seq![0x7bu8] + hex + after,
        ),
        string_extent(seq![0x5cu8, 0x75, 0x7b] + hex + after) == 2 + string_extent(
            seq![0x7bu8] + hex + after,
        ),
{
    let s = seq![0x5cu8, 0x75, 0x7b] + hex + after;
    let n = hex.len() as int;
    let tail = rest(s, 3);
    assert forall|i: int| 0 <= i < hex.len() implies is_hex(#[trigger] hex[i]) by {
    }
    lemma_hex_is_positional(hex);
    assert(tail =~= hex + after);
    assert forall|i: int| 0 <= i < n implies is_hex(#[trigger] tail[i]) by {
        assert(tail[i] == hex[i]);
    }
    if after.len() > 0 {
        assert(tail[n] == after[0]);
        assert(s[3 + n] == after[0]);
    }
    lemma_hex_count_is(tail, n);
    assert(s.subrange(3, 3 + n) =~= hex);
    assert(s[0] == 0x5c && s[1] == 0x75 && s[2] == 0x7b);
    assert(rest(s, 2) =~= seq![0x7bu8] + hex + after);
    assert(unicode_escape(s) is None);
}

} // verus!
