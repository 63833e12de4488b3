//! Strings in a trailer, and text made from raw bytes.
use vstd::prelude::*;
use vstd::utf8::*;

use crate::bytes::{push_bytes, rest, APOSTROPHE, BACKSLASH, LETTER_U, QUOTE, ZERO};
use crate::unicode::{unicode_at, unicode_escape};

verus! {

/// The byte that a backslash and `c` stand for, where `c` is not the `u` of a
/// numbered character.
pub open spec fn simple_escape(c: u8) -> Option<u8> {
    if c == QUOTE || c == BACKSLASH || c == APOSTROPHE {
        Some(c)
    } else if c == 0x6e {
        Some(0x0a)
    } else if c == 0x72 {
        Some(0x0d)
    } else if c == 0x74 {
        Some(0x09)
    } else if c == ZERO {
        Some(0x00)
    } else {
        None
    }
}

/// The bytes that the escape sequence at the start of `s` stands for, and how
/// long it is. The sequences are those of the `Debug` format of text: `\"`,
/// `\\`, `\'`, `\n`, `\r`, `\t`, `\0` and `\u{..}`. The first byte of `s`, its
/// backslash, is not looked at.
pub open spec fn escape(s: Seq<u8>) -> Option<(Seq<u8>, nat)> {
    if s.len() < 2 {
        None
    } else if s[1] == LETTER_U {
        unicode_escape(s)
    } else {
        match simple_escape(s[1]) {
            Some(c) => Some((seq![c], 2)),
            None => None,
        }
    }
}

/// What a string stands for, given the bytes after its opening quote. An escape
/// sequence stands for a character; a quote ends the string; every other byte
/// stands for itself. A backslash that starts no escape sequence stands for
/// itself too, and the byte after it for nothing. A string without a closing
/// quote runs to the end.
pub open spec fn string_value(s: Seq<u8>) -> Seq<u8>
    decreases s.len(),
{
    if s.len() == 0 || s[0] == QUOTE {
        Seq::empty()
    } else if s[0] == BACKSLASH {
        match escape(s) {
            Some((bytes, n)) => bytes + string_value(rest(s, n as int)),
            None => seq![BACKSLASH] + string_value(rest(s, 2)),
        }
    } else {
        seq![s[0]] + string_value(s.drop_first())
    }
}

/// How far reading a string moves on, from the byte after the opening quote to
/// the byte after the one that follows the closing quote.
pub open spec fn string_extent(s: Seq<u8>) -> nat
    decreases s.len(),
{
    if s.len() == 0 {
        0
    } else if s[0] == QUOTE {
        2
    } else if s[0] == BACKSLASH {
        match escape(s) {
            Some((bytes, n)) => n + string_extent(rest(s, n as int)),
            None => 2 + string_extent(rest(s, 2)),
        }
    } else {
        1 + string_extent(s.drop_first())
    }
}

/// Reading a string stops at most one byte past the end.
pub proof fn lemma_string_extent(s: Seq<u8>)
    ensures
        string_extent(s) <= s.len() + 1,
    decreases s.len(),
{
    if s.len() > 0 && s[0] != QUOTE {
        if s[0] == BACKSLASH {
            match escape(s) {
                Some((bytes, n)) => {
                    lemma_string_extent(rest(s, n as int));
                },
                None => {
                    lemma_string_extent(rest(s, 2));
                },
            }
        } else {
            lemma_string_extent(s.drop_first());
        }
    }
}

/// Reads the escape sequence of `dict` whose backslash stands at `start`.
fn escape_at(dict: &[u8], start: usize) -> (found: Option<(Vec<u8>, usize)>)
    requires
        start < dict@.len(),
    ensures
        match found {
            Some((bytes, n)) => escape(rest(dict@, start as int)) == Some((bytes@, n as nat)),
            None => escape(rest(dict@, start as int)) is None,
        },
{
    if dict.len() - start < 2 {
        return None;
    }
    let c: u8 = dict[start + 1];
    assert(rest(dict@, start as int)[1] == c);
    if c == LETTER_U {
        return unicode_at(dict, start);
    }
    let meant: u8 = if c == QUOTE || c == BACKSLASH || c == APOSTROPHE {
        c
    } else if c == 0x6e {
        0x0a
    } else if c == 0x72 {
        0x0d
    } else if c == 0x74 {
        0x09
    } else if c == ZERO {
        0x00
    } else {
        return None;
    };
    let mut bytes: Vec<u8> = Vec::new();
    bytes.push(meant);
    assert(bytes@ =~= seq![meant]);
    Some((bytes, 2))
}

/// Reads the string of `dict` whose opening quote stands at `start`, and gives
/// the position to go on from.
fn string_at(dict: &[u8], start: usize) -> (found: (Vec<u8>, usize))
    requires
        start < usize::MAX,
        dict@.len() < usize::MAX,
    ensures
        found.0@ == string_value(rest(dict@, start + 1)),
        found.1 == start + 1 + string_extent(rest(dict@, start + 1)),
{
    let mut value: Vec<u8> = Vec::new();
    let mut i: usize = start + 1;
    let ghost body = rest(dict@, start + 1);
    while i < dict.len()
        invariant_except_break
            start < i,
            i <= dict@.len() + 1 || i == start + 1,
            dict@.len() < usize::MAX,
            body == rest(dict@, start + 1),
            string_value(body) == value@ + string_value(rest(dict@, i as int)),
            start + 1 + string_extent(body) == i + string_extent(rest(dict@, i as int)),
        ensures
            value@ == string_value(body),
            i == start + 1 + string_extent(body),
        decreases dict@.len() + 1 - i,
    {
        let c: u8 = dict[i];
        let ghost here = rest(dict@, i as int);
        assert(here[0] == c);
        assert(here.drop_first() =~= rest(dict@, i + 1));
        assert(rest(here, 2) =~= rest(dict@, i + 2));
        if c == BACKSLASH {
            match escape_at(dict, i) {
                Some((bytes, n)) => {
                    assert(rest(here, n as int) =~= rest(dict@, i + n));
                    assert(value@ + (bytes@ + string_value(rest(dict@, i + n))) =~= value@ + bytes@
                        + string_value(rest(dict@, i + n)));
                    push_bytes(&mut value, bytes.as_slice());
                    i += n;
                },
                None => {
                    value.push(c);
                    i += 2;
                },
            }
        } else if c == QUOTE {
            i += 2;
            assert(value@ + Seq::<u8>::empty() =~= value@);
            break;
        } else {
            value.push(c);
            i += 1;
        }
    }
    (value, i)
}

/// Reads the next string. `index` is at its opening quote, which is not looked
/// at, and moves past the closing quote and the byte that follows.
pub fn parse_byte_string(index: &mut usize, dict: &[u8]) -> (value: Vec<u8>)
    requires
        *old(index) < usize::MAX,
        dict@.len() < usize::MAX,
    ensures
        value@ == string_value(rest(dict@, *old(index) + 1)),
        *final(index) == *old(index) + 1 + string_extent(rest(dict@, *old(index) + 1)),
{
    let (value, end) = string_at(dict, *index);
    *index = end;
    value
}

/// An error of `String::from_utf8`.
#[verifier::external_type_specification]
#[verifier::external_body]
pub struct ExFromUtf8Error(std::string::FromUtf8Error);

/// What the `Debug` format makes of a string: the string between quotes, with
/// escape sequences for some of its characters.
pub uninterp spec fn debug_text(text: Seq<char>) -> Seq<char>;

/// What `String::from_utf8_lossy` makes of some bytes.
pub uninterp spec fn lossy_text(bytes: Seq<u8>) -> Seq<char>;

/// The characters of `text` between quotes.
pub open spec fn quoted(text: Seq<char>) -> Seq<char> {
    seq!['"'] + text + seq!['"']
}

/// The characters of `text`, with a backslash before each quote and each
/// backslash.
pub open spec fn escaped(text: Seq<char>) -> Seq<char>
    decreases text.len(),
{
    if text.len() == 0 {
        Seq::empty()
    } else if text[0] == '"' || text[0] == '\\' {
        seq!['\\', text[0]] + escaped(text.drop_first())
    } else {
        seq![text[0]] + escaped(text.drop_first())
    }
}

/// Whether all characters of `text` are printable ASCII characters.
pub open spec fn is_plain(text: Seq<char>) -> bool {
    forall|i: int| 0 <= i < text.len() ==> ' ' <= #[trigger] text[i] <= '~'
}

/// The hexadecimal digits of `n`, without leading zeros.
pub open spec fn hex_text(n: nat) -> Seq<char>
    decreases n,
{
    if n < 16 {
        seq![hex_char(n)]
    } else {
        hex_text(n / 16).push(hex_char(n % 16))
    }
}

/// The hexadecimal digit with the value `d`.
pub open spec fn hex_char(d: nat) -> char {
    if d < 10 {
        (0x30 + d) as char
    } else {
        (0x57 + d) as char
    }
}

/// The escape sequence that gives a character by its number.
pub open spec fn numbered(c: char) -> Seq<char> {
    seq!['\\', 'u', '{'] + hex_text(c as nat) + seq!['}']
}

/// What follows the backslash in the escape sequence that always stands for
/// `c`, if there is one.
pub open spec fn escape_letter(c: char) -> Option<char> {
    if c == '"' || c == '\\' {
        Some(c)
    } else if c == '\n' {
        Some('n')
    } else if c == '\r' {
        Some('r')
    } else if c == '\t' {
        Some('t')
    } else if c == '\0' {
        Some('0')
    } else {
        None
    }
}

/// Whether `piece` is a way to show `c` in a string: some characters have
/// escape sequences of their own; the other printable ASCII characters come as
/// they are, but for an apostrophe, which may have a backslash before it; all
/// others come as they are or by their numbers.
pub open spec fn is_spelling(piece: Seq<char>, c: char) -> bool {
    match escape_letter(c) {
        Some(letter) => piece == seq!['\\', letter],
        None => {
            ||| piece == seq![c]
            ||| c == '\'' && piece == seq!['\\', '\'']
            ||| !(' ' <= c <= '~') && piece == numbered(c)
        },
    }
}

/// Whether `body` shows the characters of `text` one after the other.
pub open spec fn spells(body: Seq<char>, text: Seq<char>) -> bool
    decreases text.len(),
{
    if text.len() == 0 {
        body.len() == 0
    } else {
        exists|k: int|
            {
                &&& 0 < k <= body.len()
                &&& is_spelling(#[trigger] body.take(k), text[0])
                &&& spells(body.skip(k), text.drop_first())
            }
    }
}

/// Whether `shown` shows `text` between quotes.
pub open spec fn shows(shown: Seq<char>, text: Seq<char>) -> bool {
    exists|body: Seq<char>| shown == #[trigger] quoted(body) && spells(body, text)
}

/// Formats a string with `std`'s `Debug`. Trusted to make the same of the same
/// string; to show its characters between quotes, each as it is or by one of
/// its escape sequences; and to show printable ASCII characters as they are,
/// with a backslash before each quote and each backslash. Which other
/// characters come as they are and which by their numbers is left open.
#[verifier::external_body]
pub(crate) fn debug_string(text: &str) -> (shown: String)
    ensures
        shown@ == debug_text(text@),
        shows(shown@, text@),
        is_plain(text@) ==> shown@ == quoted(escaped(text@)),
{
    format!("{:?}", text)
}

/// Turns bytes into text with `std`'s `String::from_utf8_lossy`. Trusted to
/// make the same of the same bytes, and to decode bytes that are valid UTF-8.
#[verifier::external_body]
pub(crate) fn lossy_string(bytes: &[u8]) -> (text: String)
    ensures
        text@ == lossy_text(bytes@),
        valid_utf8(bytes@) ==> text@ == decode_utf8(bytes@),
{
    String::from_utf8_lossy(bytes).into_owned()
}

/// Turns bytes into text with `std`'s `String::from_utf8`. Trusted to decode
/// bytes that are valid UTF-8 and to refuse all others.
#[verifier::external_body]
pub(crate) fn utf8_string(bytes: Vec<u8>) -> (text: Result<String, std::string::FromUtf8Error>)
    ensures
        match text {
            Ok(text) => valid_utf8(bytes@) && text@ == decode_utf8(bytes@),
            Err(_) => !valid_utf8(bytes@),
        },
{
    String::from_utf8(bytes)
}

} // verus!
