//! Bytes that mean something in an archive, and helpers on byte strings.
use vstd::prelude::*;
use vstd::utf8::*;

verus! {

/// `(`, which opens a trailer.
pub const OPEN: u8 = 0x28;

/// `)`, which closes a trailer and ends an entry.
pub const CLOSE: u8 = 0x29;

/// `"`, which surrounds a string.
pub const QUOTE: u8 = 0x22;

/// `\`, which starts an escape sequence in a string.
pub const BACKSLASH: u8 = 0x5c;

/// `'`, which some escape sequences hold.
pub const APOSTROPHE: u8 = 0x27;

/// `u`, which follows the backslash where a character is given by its number.
pub const LETTER_U: u8 = 0x75;

/// The blank between two fields.
pub const SPACE: u8 = 0x20;

/// `=`, which stands between the id and the value of a field.
pub const EQUALS: u8 = 0x3d;

/// The digit `0`.
pub const ZERO: u8 = 0x30;

/// The bytes of `s` from position `i` on; nothing where `i` lies past the end.
pub open spec fn rest(s: Seq<u8>, i: int) -> Seq<u8> {
    if 0 <= i <= s.len() {
        s.skip(i)
    } else {
        Seq::empty()
    }
}

/// Whether two byte strings are equal.
pub fn same_bytes(a: &[u8], b: &[u8]) -> (same: bool)
    ensures
        same == (a@ == b@),
{
    if a.len() != b.len() {
        return false;
    }
    let mut i: usize = 0;
    while i < a.len()
        invariant
            i <= a@.len(),
            a@.len() == b@.len(),
            forall|j: int| 0 <= j < i ==> a@[j] == b@[j],
        decreases a@.len() - i,
    {
        if a[i] != b[i] {
            return false;
        }
        i += 1;
    }
    assert(a@ =~= b@);
    true
}

/// Appends `bytes` to `out`.
pub fn push_bytes(out: &mut Vec<u8>, bytes: &[u8])
    ensures
        final(out)@ == old(out)@ + bytes@,
{
    out.extend_from_slice(bytes);
}

/// Appends the UTF-8 bytes of `text` to `out`.
pub fn push_text(out: &mut Vec<u8>, text: &str)
    ensures
        final(out)@ == old(out)@ + encode_utf8(text@),
{
    push_bytes(out, text.as_bytes());
}

} // verus!
