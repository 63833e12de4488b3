//! Why a text that is shown in a string reads back.
use vstd::prelude::*;
use vstd::utf8::*;

use crate::balance::{is_balanced, lemma_net_concat, lemma_no_parentheses, net_closings};
use crate::bytes::{rest, BACKSLASH, CLOSE, LETTER_U, OPEN, QUOTE};
use crate::text::{
    escape,
    escape_letter,
    hex_char,
    hex_text,
    is_spelling,
    numbered,
    quoted,
    shows,
    spells,
    string_extent,
    string_value,
};
use crate::unicode::{hex_value, is_hex, lemma_hex_count_is, BRACE_CLOSE, BRACE_OPEN};

verus! {

/// Whether a string holds no quote and no backslash.
pub open spec fn is_bare(s: Seq<u8>) -> bool {
    forall|i: int| 0 <= i < s.len() ==> #[trigger] s[i] != QUOTE && s[i] != BACKSLASH
}

/// Whether the bytes `written` between quotes read back as `text`, up to the
/// closing quote and no further, whatever follows it.
pub open spec fn reads_as(written: Seq<u8>, text: Seq<u8>) -> bool {
    forall|after: Seq<u8>|
        {
            &&& #[trigger] string_value(written + seq![QUOTE] + after) == text
            &&& string_extent(written + seq![QUOTE] + after) == written.len() + 2
        }
}

/// Bytes without quotes and backslashes stand for themselves.
pub proof fn lemma_bare_prefix(s: Seq<u8>, after: Seq<u8>)
    requires
        is_bare(s),
    ensures
        string_value(s + after) == s + string_value(after),
        string_extent(s + after) == s.len() + string_extent(after),
    decreases s.len(),
{
    let all = s + after;
    if s.len() == 0 {
        assert(all =~= after);
        assert(s + string_value(after) =~= string_value(after));
    } else {
        let t = s.drop_first();
        assert forall|i: int| 0 <= i < t.len() implies #[trigger] t[i] != QUOTE && t[i]
            != BACKSLASH by {
            assert(t[i] == s[i + 1]);
        }
        lemma_bare_prefix(t, after);
        assert(all[0] == s[0]);
        assert(s[0] != QUOTE && s[0] != BACKSLASH);
        assert(all.drop_first() =~= t + after);
        assert(seq![s[0]] + (t + string_value(after)) =~= s + string_value(after));
    }
}

/// A closing quote ends a string.
proof fn lemma_closing_quote(after: Seq<u8>)
    ensures
        string_value(seq![QUOTE] + after) == Seq::<u8>::empty(),
        string_extent(seq![QUOTE] + after) == 2,
{
    assert((seq![QUOTE] + after)[0] == QUOTE);
}

/// A bare string reads back as it is.
pub proof fn lemma_bare(s: Seq<u8>)
    requires
        is_bare(s),
    ensures
        reads_as(s, s),
{
    assert forall|after: Seq<u8>|
        {
            &&& #[trigger] string_value(s + seq![QUOTE] + after) == s
            &&& string_extent(s + seq![QUOTE] + after) == s.len() + 2
        } by {
        lemma_bare_prefix(s, seq![QUOTE] + after);
        lemma_closing_quote(after);
        assert(s + seq![QUOTE] + after =~= s + (seq![QUOTE] + after));
        assert(s + Seq::<u8>::empty() =~= s);
    }
}

/// UTF-8 encodes a text piece by piece.
pub proof fn lemma_encode_concat(a: Seq<char>, b: Seq<char>)
    ensures
        encode_utf8(a + b) == encode_utf8(a) + encode_utf8(b),
    decreases a.len(),
{
    if a.len() == 0 {
        assert(a + b =~= b);
        assert(encode_utf8(a) + encode_utf8(b) =~= encode_utf8(b));
    } else {
        lemma_encode_concat(a.drop_first(), b);
        assert((a + b).drop_first() =~= a.drop_first() + b);
        assert((a + b)[0] == a[0]);
        let first = encode_scalar(a[0] as u32);
        assert(first + (encode_utf8(a.drop_first()) + encode_utf8(b)) =~= (first + encode_utf8(
            a.drop_first(),
        )) + encode_utf8(b));
    }
}

/// The UTF-8 bytes of a text between quotes.
pub proof fn lemma_quoted(text: Seq<char>)
    ensures
        encode_utf8(quoted(text)) == seq![QUOTE] + encode_utf8(text) + seq![QUOTE],
{
    let q = seq!['"'];
    is_ascii_chars_encode_utf8(q);
    assert(encode_utf8(q) =~= seq![QUOTE]);
    lemma_encode_concat(q, text);
    lemma_encode_concat(q + text, q);
}

/// The bytes of a character other than a quote and a backslash are others too.
proof fn lemma_scalar_bare(c: u32)
    requires
        c != 0x22,
        c != 0x5c,
    ensures
        is_bare(encode_scalar(c)),
{
    if has_width_1_encoding(c) {
        assert(leading_byte_width_1(c) == c) by (bit_vector)
            requires
                has_width_1_encoding(c),
        ;
    } else {
        assert(leading_byte_width_2(c) >= 0x80) by (bit_vector);
        assert(leading_byte_width_3(c) >= 0x80) by (bit_vector);
        assert(leading_byte_width_4(c) >= 0x80) by (bit_vector);
        assert(last_continuation_byte(c) >= 0x80) by (bit_vector);
        assert(second_last_continuation_byte(c) >= 0x80) by (bit_vector);
        assert(third_last_continuation_byte(c) >= 0x80) by (bit_vector);
    }
}

proof fn lemma_char_bare(c: char)
    requires
        c != '"',
        c != '\\',
    ensures
        is_bare(encode_scalar(c as u32)),
{
    lemma_scalar_bare(c as u32);
}

/// The bytes of a hexadecimal number are its digits and give it back.
proof fn lemma_hex_text(n: nat)
    ensures
        is_ascii_chars(hex_text(n)),
        ({
            let bytes = encode_utf8(hex_text(n));
            &&& bytes.len() == hex_text(n).len()
            &&& bytes.len() >= 1
            &&& forall|i: int| 0 <= i < bytes.len() ==> is_hex(#[trigger] bytes[i])
            &&& hex_value(bytes) == n
        }),
    decreases n,
{
    let text = hex_text(n);
    let bytes = encode_utf8(text);
    if n < 16 {
        is_ascii_chars_encode_utf8(text);
        assert(bytes[0] == text[0] as u8);
        assert(bytes.drop_last() =~= Seq::<u8>::empty());
        assert(hex_value(bytes.drop_last()) == 0);
    } else {
        let before = hex_text(n / 16);
        let last = hex_char(n % 16);
        lemma_hex_text(n / 16);
        assert(text == before.push(last));
        assert(is_ascii_chars(text)) by {
            assert forall|i: int| 0 <= i < text.len() implies '\0' <= #[trigger] text[i]
                <= '\u{7f}' by {
                if i < before.len() {
                    assert(text[i] == before[i]);
                }
            }
        }
        is_ascii_chars_encode_utf8(text);
        is_ascii_chars_encode_utf8(before);
        assert(bytes.drop_last() =~= encode_utf8(before)) by {
            assert forall|i: int| 0 <= i < before.len() implies bytes.drop_last()[i]
                == #[trigger] encode_utf8(before)[i] by {
                assert(text[i] == before[i]);
            }
        }
        assert(bytes.last() == last as u8);
        assert forall|i: int| 0 <= i < bytes.len() implies is_hex(#[trigger] bytes[i]) by {
            if i < before.len() {
                assert(bytes[i] == bytes.drop_last()[i]);
            }
        }
    }
}

/// A number below a power of 16 has few digits.
proof fn lemma_hex_len(n: nat)
    requires
        n < 0x100_0000,
    ensures
        hex_text(n).len() <= 6,
{
    reveal_with_fuel(hex_text, 7);
    let a = n / 16;
    let b = a / 16;
    let c = b / 16;
    let d = c / 16;
    let e = d / 16;
    assert(a < 0x10_0000);
    assert(b < 0x1_0000);
    assert(c < 0x1000);
    assert(d < 0x100);
    assert(e < 0x10);
    assert(hex_text(e).len() == 1);
    assert(hex_text(d).len() <= 2);
    assert(hex_text(c).len() <= 3);
    assert(hex_text(b).len() <= 4);
    assert(hex_text(a).len() <= 5);
}

/// The bytes of one character.
proof fn lemma_one_char(c: char)
    ensures
        encode_utf8(seq![c]) == encode_scalar(c as u32),
{
    reveal_with_fuel(encode_utf8, 2);
    assert(seq![c].drop_first() =~= Seq::<char>::empty());
    assert(encode_utf8(seq![c]) =~= encode_scalar(c as u32));
}

/// The bytes of a character that is given by its number.
proof fn lemma_numbered_bytes(c: char)
    ensures
        encode_utf8(numbered(c)) == seq![BACKSLASH, LETTER_U, BRACE_OPEN] + encode_utf8(
            hex_text(c as nat),
        ) + seq![BRACE_CLOSE],
{
    let start = seq!['\\', 'u', '{'];
    let end = seq!['}'];
    is_ascii_chars_encode_utf8(start);
    is_ascii_chars_encode_utf8(end);
    assert(encode_utf8(start) =~= seq![BACKSLASH, LETTER_U, BRACE_OPEN]);
    assert(encode_utf8(end) =~= seq![BRACE_CLOSE]);
    lemma_encode_concat(start, hex_text(c as nat));
    lemma_encode_concat(start + hex_text(c as nat), end);
}

/// A character that is given by its number reads back.
proof fn lemma_numbered_escape(c: char, after: Seq<u8>)
    ensures
        escape(encode_utf8(numbered(c)) + after) == Some(
            (encode_scalar(c as u32), encode_utf8(numbered(c)).len()),
        ),
{
    let hex = encode_utf8(hex_text(c as nat));
    let n = hex.len() as int;
    let s = encode_utf8(numbered(c)) + after;
    char_is_scalar(c);
    lemma_numbered_bytes(c);
    lemma_hex_text(c as nat);
    lemma_hex_len(c as nat);
    let tail = rest(s, 3);
    assert(tail =~= hex + (seq![BRACE_CLOSE] + after));
    assert forall|i: int| 0 <= i < n implies is_hex(#[trigger] tail[i]) by {
        assert(tail[i] == hex[i]);
    }
    assert(tail[n] == BRACE_CLOSE);
    lemma_hex_count_is(tail, n);
    assert(s.subrange(3, 3 + n) =~= hex);
    assert(s[1] == LETTER_U);
    assert(s[2] == BRACE_OPEN);
    assert(s[3 + n] == BRACE_CLOSE);
    assert(hex_value(hex) as u32 == c as u32);
}

/// A simple escape sequence reads back.
proof fn lemma_letter_escape(c: char, letter: char, after: Seq<u8>)
    requires
        escape_letter(c) == Some(letter) || (c == '\'' && letter == '\''),
    ensures
        encode_utf8(seq!['\\', letter]) == seq![BACKSLASH, letter as u8],
        escape(encode_utf8(seq!['\\', letter]) + after) == Some((encode_scalar(c as u32), 2nat)),
{
    let piece = seq!['\\', letter];
    is_ascii_chars_encode_utf8(piece);
    assert(encode_utf8(piece) =~= seq![BACKSLASH, letter as u8]);
    lemma_one_char(c);
    is_ascii_chars_encode_utf8(seq![c]);
    assert(encode_scalar(c as u32) =~= seq![c as u8]);
    assert((encode_utf8(piece) + after)[1] == letter as u8);
}

/// A shown character reads back, whatever follows it.
proof fn lemma_spelling(piece: Seq<char>, c: char, after: Seq<u8>)
    requires
        is_spelling(piece, c),
    ensures
        string_value(encode_utf8(piece) + after) == encode_scalar(c as u32) + string_value(after),
        string_extent(encode_utf8(piece) + after) == encode_utf8(piece).len() + string_extent(
            after,
        ),
{
    let bytes = encode_utf8(piece);
    let s = bytes + after;
    if piece == seq![c] && escape_letter(c) is None {
        lemma_one_char(c);
        lemma_char_bare(c);
        lemma_bare_prefix(bytes, after);
    } else {
        if escape_letter(c) is Some {
            lemma_letter_escape(c, escape_letter(c)->0, after);
        } else if c == '\'' {
            lemma_letter_escape(c, '\'', after);
        } else {
            lemma_numbered_escape(c, after);
            lemma_numbered_bytes(c);
        }
        assert(s[0] == BACKSLASH);
        assert(rest(s, bytes.len() as int) =~= after);
    }
}

proof fn lemma_spelled_prefix(body: Seq<char>, text: Seq<char>, after: Seq<u8>)
    requires
        spells(body, text),
    ensures
        string_value(encode_utf8(body) + after) == encode_utf8(text) + string_value(after),
        string_extent(encode_utf8(body) + after) == encode_utf8(body).len() + string_extent(after),
    decreases text.len(),
{
    if text.len() == 0 {
        assert(encode_utf8(body) + after =~= after);
        assert(encode_utf8(text) + string_value(after) =~= string_value(after));
    } else {
        let k = choose|k: int|
            {
                &&& 0 < k <= body.len()
                &&& is_spelling(#[trigger] body.take(k), text[0])
                &&& spells(body.skip(k), text.drop_first())
            };
        let piece = body.take(k);
        let more = encode_utf8(body.skip(k));
        let first = encode_scalar(text[0] as u32);
        let others = encode_utf8(text.drop_first());
        assert(piece + body.skip(k) =~= body);
        lemma_encode_concat(piece, body.skip(k));
        lemma_spelled_prefix(body.skip(k), text.drop_first(), after);
        lemma_spelling(piece, text[0], more + after);
        assert(encode_utf8(body) + after =~= encode_utf8(piece) + (more + after));
        assert(first + (others + string_value(after)) =~= encode_utf8(text) + string_value(after));
    }
}

/// A text that is shown in a string reads back.
pub proof fn lemma_spelled_reads_back(body: Seq<char>, text: Seq<char>)
    requires
        spells(body, text),
    ensures
        reads_as(encode_utf8(body), encode_utf8(text)),
{
    let written = encode_utf8(body);
    assert forall|after: Seq<u8>|
        {
            &&& #[trigger] string_value(written + seq![QUOTE] + after) == encode_utf8(text)
            &&& string_extent(written + seq![QUOTE] + after) == written.len() + 2
        } by {
        lemma_spelled_prefix(body, text, seq![QUOTE] + after);
        lemma_closing_quote(after);
        assert(written + seq![QUOTE] + after =~= written + (seq![QUOTE] + after));
        assert(encode_utf8(text) + Seq::<u8>::empty() =~= encode_utf8(text));
    }
}

/// Whether a string holds no parenthesis.
spec fn has_none(s: Seq<u8>) -> bool {
    forall|i: int| 0 <= i < s.len() ==> #[trigger] s[i] != OPEN && s[i] != CLOSE
}

/// The bytes of a character other than a parenthesis are others too.
proof fn lemma_scalar_has_none(c: u32)
    requires
        c != 0x28,
        c != 0x29,
    ensures
        has_none(encode_scalar(c)),
{
    if has_width_1_encoding(c) {
        assert(leading_byte_width_1(c) == c) by (bit_vector)
            requires
                has_width_1_encoding(c),
        ;
    } else {
        assert(leading_byte_width_2(c) >= 0x80) by (bit_vector);
        assert(leading_byte_width_3(c) >= 0x80) by (bit_vector);
        assert(leading_byte_width_4(c) >= 0x80) by (bit_vector);
        assert(last_continuation_byte(c) >= 0x80) by (bit_vector);
        assert(second_last_continuation_byte(c) >= 0x80) by (bit_vector);
        assert(third_last_continuation_byte(c) >= 0x80) by (bit_vector);
    }
}

proof fn lemma_char_has_none(c: char)
    requires
        c != '(',
        c != ')',
    ensures
        has_none(encode_scalar(c as u32)),
{
    lemma_scalar_has_none(c as u32);
}

/// A shown character is made of its own bytes, or neither these nor those that
/// show it are parentheses.
proof fn lemma_spelling_parentheses(piece: Seq<char>, c: char)
    requires
        is_spelling(piece, c),
    ensures
        encode_utf8(piece) == encode_scalar(c as u32) || (has_none(encode_utf8(piece)) && has_none(
            encode_scalar(c as u32),
        )),
{
    if piece == seq![c] && escape_letter(c) is None {
        lemma_one_char(c);
    } else {
        lemma_char_has_none(c);
        if escape_letter(c) is Some {
            lemma_letter_escape(c, escape_letter(c)->0, Seq::empty());
        } else if c == '\'' {
            lemma_letter_escape(c, '\'', Seq::empty());
        } else {
            let hex = encode_utf8(hex_text(c as nat));
            let bytes = encode_utf8(piece);
            lemma_numbered_bytes(c);
            lemma_hex_text(c as nat);
            assert forall|i: int| 0 <= i < bytes.len() implies #[trigger] bytes[i] != OPEN
                && bytes[i] != CLOSE by {
                if 3 <= i < 3 + hex.len() {
                    assert(bytes[i] == hex[i - 3]);
                    assert(is_hex(hex[i - 3]));
                }
            }
        }
    }
}

/// Without parentheses in it, a front adds nothing to what follows it.
proof fn lemma_none_in_front(front: Seq<u8>, after: Seq<u8>)
    requires
        has_none(front),
    ensures
        net_closings(front + after) == net_closings(after),
{
    lemma_no_parentheses(front);
    lemma_net_concat(front, after);
}

/// Whether the suffixes of `s` close no fewer parentheses than they open, and
/// not too many more.
spec fn suffixes_close(s: Seq<u8>) -> bool {
    forall|k: int| 0 <= k <= s.len() ==> 0 <= #[trigger] net_closings(s.skip(k)) < u32::MAX
}

/// To change a front without parentheses, or not at all, keeps the suffixes as
/// they have to be.
proof fn lemma_suffixes(front: Seq<u8>, shown: Seq<u8>, after: Seq<u8>, shown_after: Seq<u8>)
    requires
        shown == front || (has_none(shown) && has_none(front)),
        net_closings(after) == net_closings(shown_after),
        suffixes_close(front + after),
        suffixes_close(shown_after),
    ensures
        suffixes_close(shown + shown_after),
        net_closings(shown + shown_after) == net_closings(front + after),
{
    let all = shown + shown_after;
    assert(shown_after.skip(0) =~= shown_after);
    assert(0 <= net_closings(shown_after.skip(0)) < u32::MAX);
    lemma_net_concat(shown, shown_after);
    lemma_net_concat(front, after);
    if shown != front {
        lemma_none_in_front(shown, shown_after);
        lemma_none_in_front(front, after);
    }
    assert forall|k: int| 0 <= k <= all.len() implies 0 <= #[trigger] net_closings(all.skip(k))
        < u32::MAX by {
        if k >= shown.len() {
            assert(all.skip(k) =~= shown_after.skip(k - shown.len()));
        } else {
            let part = shown.skip(k);
            assert(all.skip(k) =~= part + shown_after);
            lemma_net_concat(part, shown_after);
            if shown == front {
                assert((front + after).skip(k) =~= part + after);
                assert(0 <= net_closings((front + after).skip(k)) < u32::MAX);
                lemma_net_concat(part, after);
            } else {
                assert(has_none(part)) by {
                    assert forall|i: int| 0 <= i < part.len() implies #[trigger] part[i] != OPEN
                        && part[i] != CLOSE by {
                        assert(part[i] == shown[k + i]);
                    }
                }
                lemma_none_in_front(part, shown_after);
            }
        }
    }
}

proof fn lemma_spelled_suffixes(body: Seq<char>, text: Seq<char>)
    requires
        spells(body, text),
        suffixes_close(encode_utf8(text)),
    ensures
        suffixes_close(encode_utf8(body)),
        net_closings(encode_utf8(body)) == net_closings(encode_utf8(text)),
    decreases text.len(),
{
    if text.len() == 0 {
        assert(encode_utf8(body) =~= encode_utf8(text));
    } else {
        let k = choose|k: int|
            {
                &&& 0 < k <= body.len()
                &&& is_spelling(#[trigger] body.take(k), text[0])
                &&& spells(body.skip(k), text.drop_first())
            };
        let shown = encode_utf8(body.take(k));
        let shown_after = encode_utf8(body.skip(k));
        let front = encode_scalar(text[0] as u32);
        let after = encode_utf8(text.drop_first());
        assert(body.take(k) + body.skip(k) =~= body);
        lemma_encode_concat(body.take(k), body.skip(k));
        lemma_spelling_parentheses(body.take(k), text[0]);
        assert(suffixes_close(after)) by {
            assert forall|j: int| 0 <= j <= after.len() implies 0 <= #[trigger] net_closings(
                after.skip(j),
            ) < u32::MAX by {
                assert((front + after).skip(front.len() + j) =~= after.skip(j));
                assert(0 <= net_closings((front + after).skip(front.len() + j)) < u32::MAX);
            }
        }
        lemma_spelled_suffixes(body.skip(k), text.drop_first());
        lemma_suffixes(front, shown, after, shown_after);
    }
}

/// Where the parentheses of a text pair up, those of what shows it do too.
pub proof fn lemma_spelled_balanced(body: Seq<char>, text: Seq<char>)
    requires
        spells(body, text),
        is_balanced(encode_utf8(text)),
    ensures
        is_balanced(encode_utf8(body)),
{
    assert(suffixes_close(encode_utf8(text)));
    lemma_spelled_suffixes(body, text);
}

/// A text that was shown between quotes, as the `Debug` format does it, is what
/// the string reader reads back, and it moves past the end.
pub proof fn law_shown_text_reads_back(shown: Seq<char>, text: Seq<char>)
    requires
        shows(shown, text),
    ensures
        ({
            let dict = encode_utf8(shown);
            &&& string_value(rest(dict, 1)) == encode_utf8(text)
            &&& 1 + string_extent(rest(dict, 1)) == dict.len() + 1
        }),
{
    let body = choose|body: Seq<char>| shown == #[trigger] quoted(body) && spells(body, text);
    let inner = encode_utf8(body);
    lemma_quoted(body);
    lemma_spelled_reads_back(body, text);
    assert(rest(encode_utf8(shown), 1) =~= inner + seq![QUOTE] + Seq::empty());
    assert(string_value(inner + seq![QUOTE] + Seq::empty()) == encode_utf8(text));
}

} // verus!
