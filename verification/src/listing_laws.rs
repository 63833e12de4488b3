//! What holds of the lines that show the entries of an archive.
use vstd::prelude::*;
use vstd::utf8::*;

use crate::laws::law_archives_concatenate;
use crate::list::{line_text, lines_text};
use crate::number::{digits, is_digit, law_number_reads_back, leading_number};
use crate::text::{debug_text, lossy_text};
use crate::walk::{walk, Entry};

verus! {

/// A short listing shows the whole name of each entry, byte by byte where it is
/// UTF-8, whatever its other metadata are.
pub proof fn law_short_lines_are_names(entries: Seq<Entry>)
    ensures
        lines_text(entries, false).len() == entries.len(),
        forall|i: int|
            0 <= i < entries.len() ==> #[trigger] lines_text(entries, false)[i] == encode_utf8(
                lossy_text(entries[i].meta.name),
            ),
        forall|i: int|
            0 <= i < entries.len() && valid_utf8(entries[i].meta.name) && lossy_text(
                entries[i].meta.name,
            ) == decode_utf8(entries[i].meta.name) ==> #[trigger] lines_text(entries, false)[i]
                == entries[i].meta.name,
{
    assert forall|i: int|
        0 <= i < entries.len() && valid_utf8(entries[i].meta.name) && lossy_text(
            entries[i].meta.name,
        ) == decode_utf8(entries[i].meta.name) implies #[trigger] lines_text(entries, false)[i]
        == entries[i].meta.name by {
        decode_utf8_encode_utf8(entries[i].meta.name);
    }
}

/// The lines of combined archives are those of the second one and then those of
/// the first one. In a verbose listing only the offsets in the former are
/// others, by the length of the first archive: a line is some text and the
/// offset behind it, and the text stays the same.
pub proof fn law_verbose_listings_concatenate(a: Seq<u8>, b: Seq<u8>)
    requires
        walk(b).end is Ok,
    ensures
        ({
            let all = lines_text(walk(a + b).entries, true);
            let first = lines_text(walk(b).entries, true);
            let second = lines_text(walk(a).entries, true);
            &&& all.len() == first.len() + second.len()
            &&& forall|i: int|
                0 <= i < second.len() ==> all[first.len() + i] == #[trigger] second[i]
            &&& forall|i: int|
                0 <= i < first.len() ==> {
                    let offset = walk(b).entries[i].offset;
                    let k = first[i].len() - digits(offset, 10).len();
                    &&& k >= 0
                    &&& (#[trigger] first[i]).skip(k) == digits(offset, 10)
                    &&& all[i] == first[i].take(k) + digits(offset + a.len(), 10)
                }
        }),
{
    law_archives_concatenate(a, b);
    let entries = walk(b).entries;
    let found = walk(a + b).entries;
    let all = lines_text(found, true);
    let first = lines_text(entries, true);
    let second = lines_text(walk(a).entries, true);
    assert forall|i: int| 0 <= i < second.len() implies all[first.len() + i]
        == #[trigger] second[i] by {
        assert(found[entries.len() + i] == walk(a).entries[i]);
    }
    assert forall|i: int| 0 <= i < first.len() implies {
        let offset = entries[i].offset;
        let k = first[i].len() - digits(offset, 10).len();
        &&& k >= 0
        &&& (#[trigger] first[i]).skip(k) == digits(offset, 10)
        &&& all[i] == first[i].take(k) + digits(offset + a.len(), 10)
    } by {
        let meta = entries[i].meta;
        assert(found[i].meta == meta);
        assert(found[i].offset == entries[i].offset + a.len());
        let text = encode_utf8(lossy_text(meta.name)) + encode_utf8(" (type="@) + encode_utf8(
            debug_text(lossy_text(meta.entry_type)),
        ) + encode_utf8(" size="@) + digits(meta.size, 10) + encode_utf8(" mode="@) + digits(
            meta.mode,
            8,
        ) + encode_utf8(" filter="@) + encode_utf8(debug_text(lossy_text(meta.filter)))
            + encode_utf8(" crc="@) + digits(meta.crc, 10) + encode_utf8(" target="@) + encode_utf8(
            debug_text(lossy_text(meta.target)),
        ) + encode_utf8(") @ offset="@);
        assert(first[i] == text + digits(entries[i].offset, 10));
        assert(all[i] == text + digits(entries[i].offset + a.len(), 10));
        assert(first[i].take(text.len() as int) =~= text);
        assert(first[i].skip(text.len() as int) =~= digits(entries[i].offset, 10));
    }
}

/// Two texts that start with the same bytes and a number, where no digit
/// follows it, are the same only if the numbers and the rests are.
proof fn lemma_same_number(
    front: Seq<u8>,
    m: nat,
    n: nat,
    base: nat,
    after_m: Seq<u8>,
    after_n: Seq<u8>,
)
    requires
        2 <= base <= 10,
        front + digits(m, base) + after_m == front + digits(n, base) + after_n,
        after_m.len() > 0 ==> !is_digit(after_m[0], base),
        after_n.len() > 0 ==> !is_digit(after_n[0], base),
    ensures
        m == n,
        after_m == after_n,
{
    let all = front + digits(m, base) + after_m;
    let k = front.len() as int;
    law_number_reads_back(m, base, after_m);
    law_number_reads_back(n, base, after_n);
    assert(all.skip(k) =~= digits(m, base) + after_m);
    assert(all.skip(k) =~= digits(n, base) + after_n);
    assert(all.skip(k + digits(m, base).len()) =~= after_m);
    assert(all.skip(k + digits(n, base).len()) =~= after_n);
}

/// The words behind the numbers in a line start with no digit.
proof fn lemma_line_words()
    ensures
        encode_utf8(" mode="@).len() > 0,
        !is_digit(encode_utf8(" mode="@)[0], 10),
        encode_utf8(" filter="@).len() > 0,
        !is_digit(encode_utf8(" filter="@)[0], 8),
        encode_utf8(" target="@).len() > 0,
        !is_digit(encode_utf8(" target="@)[0], 10),
{
    reveal_strlit(" mode=");
    is_ascii_chars_encode_utf8(" mode="@);
    assert(encode_utf8(" mode="@)[0] == " mode="@[0] as u8);
    reveal_strlit(" filter=");
    is_ascii_chars_encode_utf8(" filter="@);
    assert(encode_utf8(" filter="@)[0] == " filter="@[0] as u8);
    reveal_strlit(" target=");
    is_ascii_chars_encode_utf8(" target="@);
    assert(encode_utf8(" target="@)[0] == " target="@[0] as u8);
}

/// What stands behind the size in a line.
spec fn after_size(
    word: Seq<u8>,
    mode: nat,
    filter: Seq<u8>,
    crc: nat,
    target: Seq<u8>,
    offset: nat,
) -> Seq<u8> {
    word + (digits(mode, 8) + after_mode(filter, crc, target, offset))
}

/// What stands behind the mode in a line.
spec fn after_mode(filter: Seq<u8>, crc: nat, target: Seq<u8>, offset: nat) -> Seq<u8> {
    encode_utf8(" filter="@) + filter + encode_utf8(" crc="@) + digits(crc, 10) + after_crc(
        target,
        offset,
    )
}

/// What stands behind the checksum in a line.
spec fn after_crc(target: Seq<u8>, offset: nat) -> Seq<u8> {
    encode_utf8(" target="@) + target + encode_utf8(") @ offset="@) + digits(offset, 10)
}

/// A line, grouped at its numbers.
proof fn lemma_line_groups(entry: Entry)
    ensures
        ({
            let meta = entry.meta;
            let filter = encode_utf8(debug_text(lossy_text(meta.filter)));
            let target = encode_utf8(debug_text(lossy_text(meta.target)));
            let front = encode_utf8(lossy_text(meta.name)) + encode_utf8(" (type="@) + encode_utf8(
                debug_text(lossy_text(meta.entry_type)),
            ) + encode_utf8(" size="@);
            line_text(entry, true) == front + digits(meta.size, 10) + after_size(
                encode_utf8(" mode="@),
                meta.mode,
                filter,
                meta.crc,
                target,
                entry.offset,
            )
        }),
{
    let meta = entry.meta;
    let filter = encode_utf8(debug_text(lossy_text(meta.filter)));
    let target = encode_utf8(debug_text(lossy_text(meta.target)));
    let front = encode_utf8(lossy_text(meta.name)) + encode_utf8(" (type="@) + encode_utf8(
        debug_text(lossy_text(meta.entry_type)),
    ) + encode_utf8(" size="@);
    let to_size = front + digits(meta.size, 10);
    let to_mode = to_size + encode_utf8(" mode="@) + digits(meta.mode, 8);
    let to_crc = to_mode + encode_utf8(" filter="@) + filter + encode_utf8(" crc="@) + digits(
        meta.crc,
        10,
    );
    assert(to_crc + encode_utf8(" target="@) + target + encode_utf8(") @ offset="@) + digits(
        entry.offset,
        10,
    ) =~= to_crc + after_crc(target, entry.offset));
    assert(to_crc + after_crc(target, entry.offset) =~= to_mode + after_mode(
        filter,
        meta.crc,
        target,
        entry.offset,
    ));
    assert(to_mode + after_mode(filter, meta.crc, target, entry.offset) =~= to_size + after_size(
        encode_utf8(" mode="@),
        meta.mode,
        filter,
        meta.crc,
        target,
        entry.offset,
    ));
}

/// A verbose line tells all numbers of an entry: two entries with the same
/// texts are shown by the same line only if their sizes, their modes, their
/// checksums and their offsets are the same.
pub proof fn law_verbose_lines_tell_numbers_apart(a: Entry, b: Entry)
    requires
        a.meta.name == b.meta.name,
        a.meta.entry_type == b.meta.entry_type,
        a.meta.filter == b.meta.filter,
        a.meta.target == b.meta.target,
        line_text(a, true) == line_text(b, true),
    ensures
        a.meta.size == b.meta.size,
        a.meta.mode == b.meta.mode,
        a.meta.crc == b.meta.crc,
        a.offset == b.offset,
{
    let filter = encode_utf8(debug_text(lossy_text(a.meta.filter)));
    let target = encode_utf8(debug_text(lossy_text(a.meta.target)));
    let front = encode_utf8(lossy_text(a.meta.name)) + encode_utf8(" (type="@) + encode_utf8(
        debug_text(lossy_text(a.meta.entry_type)),
    ) + encode_utf8(" size="@);
    let word = encode_utf8(" mode="@);
    let none = Seq::<u8>::empty();
    lemma_line_words();
    lemma_line_groups(a);
    lemma_line_groups(b);
    let a1 = after_size(word, a.meta.mode, filter, a.meta.crc, target, a.offset);
    let b1 = after_size(word, b.meta.mode, filter, b.meta.crc, target, b.offset);
    assert(a1[0] == word[0] && b1[0] == word[0]);
    lemma_same_number(front, a.meta.size, b.meta.size, 10, a1, b1);
    let a2 = after_mode(filter, a.meta.crc, target, a.offset);
    let b2 = after_mode(filter, b.meta.crc, target, b.offset);
    assert(a2[0] == encode_utf8(" filter="@)[0] && b2[0] == encode_utf8(" filter="@)[0]);
    assert(word + digits(a.meta.mode, 8) + a2 =~= a1);
    assert(word + digits(b.meta.mode, 8) + b2 =~= b1);
    lemma_same_number(word, a.meta.mode, b.meta.mode, 8, a2, b2);
    let a3 = after_crc(target, a.offset);
    let b3 = after_crc(target, b.offset);
    assert(a3[0] == encode_utf8(" target="@)[0] && b3[0] == encode_utf8(" target="@)[0]);
    let to_crc = encode_utf8(" filter="@) + filter + encode_utf8(" crc="@);
    lemma_same_number(to_crc, a.meta.crc, b.meta.crc, 10, a3, b3);
    let to_offset = encode_utf8(" target="@) + target + encode_utf8(") @ offset="@);
    assert(to_offset + digits(a.offset, 10) + none =~= a3);
    assert(to_offset + digits(b.offset, 10) + none =~= b3);
    lemma_same_number(to_offset, a.offset, b.offset, 10, none, none);
}

/// The number behind the word `size=` in a verbose line is the size of the
/// entry, wherever the entry stands; it is read as the sizes in trailers are.
pub proof fn law_verbose_line_shows_the_size(entry: Entry)
    ensures
        ({
            let meta = entry.meta;
            let front = encode_utf8(lossy_text(meta.name)) + encode_utf8(" (type="@) + encode_utf8(
                debug_text(lossy_text(meta.entry_type)),
            ) + encode_utf8(" size="@);
            let line = line_text(entry, true);
            &&& line.len() >= front.len()
            &&& line.take(front.len() as int) == front
            &&& leading_number(line.skip(front.len() as int), 10) == meta.size
        }),
{
    let meta = entry.meta;
    let filter = encode_utf8(debug_text(lossy_text(meta.filter)));
    let target = encode_utf8(debug_text(lossy_text(meta.target)));
    let front = encode_utf8(lossy_text(meta.name)) + encode_utf8(" (type="@) + encode_utf8(
        debug_text(lossy_text(meta.entry_type)),
    ) + encode_utf8(" size="@);
    let word = encode_utf8(" mode="@);
    let after = after_size(word, meta.mode, filter, meta.crc, target, entry.offset);
    lemma_line_words();
    lemma_line_groups(entry);
    assert(after[0] == word[0]);
    law_number_reads_back(meta.size, 10, after);
    assert(line_text(entry, true).take(front.len() as int) =~= front);
    assert(line_text(entry, true).skip(front.len() as int) =~= digits(meta.size, 10) + after);
}

} // verus!
