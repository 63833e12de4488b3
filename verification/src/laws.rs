//! What holds of archives and of the entries found in them.
use vstd::prelude::*;
use vstd::utf8::*;

use crate::balance::{is_balanced, lemma_opening_ignores};
use crate::bytes::{CLOSE, OPEN};
use crate::codec::filter_named;
use crate::dict::{
    file_fields,
    file_meta,
    lemma_file_dict,
    lemma_file_dict_balanced,
    lemma_file_trailer,
    lemma_filter_name,
    lemma_symlink_dict,
    lemma_symlink_dict_balanced,
    lemma_symlink_trailer,
    symlink_fields,
    symlink_meta,
};
use crate::escapes::{is_bare, lemma_spelled_balanced, lemma_spelled_reads_back};
use crate::fields::dict_text;
use crate::list::lines_text;
use crate::malformed::Malformed;
use crate::meta::{dict_meta, EntryMeta};
use crate::pack::{file_entry_bytes, file_trailer_text, symlink_trailer_text};
use crate::text::{quoted, shows, spells};
use crate::walk::{last_entry, lemma_last_entry, lemma_opening, opening, walk, Entry, Walked};

verus! {

/// The entry found `by` bytes further on.
pub open spec fn shift(entry: Entry, by: nat) -> Entry {
    Entry { meta: entry.meta, offset: entry.offset + by }
}

/// The entries found `by` bytes further on.
pub open spec fn shift_all(entries: Seq<Entry>, by: nat) -> Seq<Entry> {
    Seq::new(entries.len(), |i: int| shift(entries[i], by))
}

proof fn lemma_opening_after(a: Seq<u8>, s: Seq<u8>, depth: nat)
    ensures
        opening(s, depth) matches Ok(open) ==> opening(a + s, depth) == Ok::<
            nat,
            Malformed<Seq<u8>>,
        >(open + a.len()),
    decreases s.len(),
{
    if s.len() > 0 {
        let t = s.drop_last();
        assert((a + s).drop_last() =~= a + t);
        assert((a + s).last() == s.last());
        if s.last() == CLOSE {
            lemma_opening_after(a, t, depth + 1);
        } else if s.last() == OPEN {
            if depth > 1 {
                lemma_opening_after(a, t, (depth - 1) as nat);
            }
        } else {
            lemma_opening_after(a, t, depth);
        }
    }
}

/// Each entry is independent from all others: whatever precedes an entry, it
/// reads the same.
pub proof fn law_entries_are_independent(a: Seq<u8>, b: Seq<u8>)
    requires
        b.len() > 0,
        last_entry(b) is Ok,
    ensures
        last_entry(a + b) == Ok::<Entry, Malformed<Seq<u8>>>(
            shift(last_entry(b)->Ok_0, a.len()),
        ),
        last_entry(a + b)->Ok_0.meta == last_entry(b)->Ok_0.meta,
        last_entry(a + b)->Ok_0.offset == last_entry(b)->Ok_0.offset + a.len(),
{
    assert((a + b).last() == b.last());
    assert((a + b).drop_last() =~= a + b.drop_last());
    lemma_opening_after(a, b.drop_last(), 1);
    lemma_opening(b.drop_last(), 1);
    let open = opening(b.drop_last(), 1)->Ok_0;
    assert((a + b).subrange(open as int + a.len() + 1, (a + b).len() - 1) =~= b.subrange(
        open as int + 1,
        b.len() - 1,
    ));
}

/// Archives are combined by writing one after the other: the combined archive
/// holds the entries of both, those of the second one first.
pub proof fn law_archives_concatenate(a: Seq<u8>, b: Seq<u8>)
    requires
        walk(b).end is Ok,
    ensures
        walk(a + b).entries == shift_all(walk(b).entries, a.len()) + walk(a).entries,
        walk(a + b).end == walk(a).end,
        walk(a + b).entries.len() == walk(b).entries.len() + walk(a).entries.len(),
        forall|i: int|
            0 <= i < walk(b).entries.len() ==> (#[trigger] walk(a + b).entries[i]).meta == walk(
                b,
            ).entries[i].meta && walk(a + b).entries[i].offset == walk(b).entries[i].offset
                + a.len(),
        forall|i: int|
            0 <= i < walk(a).entries.len() ==> walk(a + b).entries[walk(b).entries.len() + i]
                == #[trigger] walk(a).entries[i],
    decreases b.len(),
{
    if b.len() == 0 {
        assert(a + b =~= a);
        assert(shift_all(walk(b).entries, a.len()) + walk(a).entries =~= walk(a).entries);
    } else {
        law_entries_are_independent(a, b);
        lemma_last_entry(b);
        lemma_last_entry(a + b);
        let entry = last_entry(b)->Ok_0;
        let before = b.take(entry.offset as int);
        assert((a + b).take(entry.offset as int + a.len()) =~= a + before);
        law_archives_concatenate(a, before);
        assert(shift_all(walk(b).entries, a.len()) + walk(a).entries =~= seq![
            shift(entry, a.len()),
        ] + (shift_all(walk(before).entries, a.len()) + walk(a).entries));
    }
}

/// A listing of combined archives shows the names of both, those of the second
/// one first.
pub proof fn law_listings_concatenate(a: Seq<u8>, b: Seq<u8>)
    requires
        walk(b).end is Ok,
    ensures
        lines_text(walk(a + b).entries, false) == lines_text(walk(b).entries, false) + lines_text(
            walk(a).entries,
            false,
        ),
{
    law_archives_concatenate(a, b);
    assert(lines_text(walk(a + b).entries, false) =~= lines_text(walk(b).entries, false)
        + lines_text(walk(a).entries, false));
}

/// Data and a dictionary between parentheses behind it are one entry.
proof fn lemma_one_entry(payload: Seq<u8>, dict: Seq<u8>, meta: EntryMeta)
    requires
        is_balanced(dict),
        dict_meta(dict) == Ok::<EntryMeta, Malformed<Seq<u8>>>(meta),
        meta.size == payload.len(),
    ensures
        walk(payload + (seq![OPEN] + dict + seq![CLOSE])) == (Walked {
            entries: seq![Entry { meta, offset: 0 }],
            end: Ok(()),
        }),
{
    let all = payload + (seq![OPEN] + dict + seq![CLOSE]);
    let open = payload.len() as int;
    let front = payload + seq![OPEN];
    assert(all.last() == CLOSE);
    assert(all.drop_last() =~= front + dict);
    lemma_opening_ignores(front, dict);
    assert(front.last() == OPEN);
    assert(all.subrange(open + 1, all.len() - 1) =~= dict);
    assert(last_entry(all) == Ok::<Entry, Malformed<Seq<u8>>>(Entry { meta, offset: 0 }));
    assert(all.take(0) =~= Seq::<u8>::empty());
    assert(walk(Seq::<u8>::empty()).entries =~= Seq::<Entry>::empty());
    assert(walk(all).entries =~= seq![Entry { meta, offset: 0 }]);
}

/// What stands between the parentheses of a file's trailer reads back as the
/// properties that it was written with, whatever the name is.
pub proof fn law_file_dictionary_reads_back(
    size: nat,
    shown_name: Seq<char>,
    name: Seq<char>,
    mode: nat,
    filter: Seq<char>,
    crc: nat,
)
    requires
        size <= u64::MAX,
        shows(shown_name, name),
        mode <= u32::MAX,
        is_bare(encode_utf8(filter)),
        crc <= u32::MAX,
    ensures
        ({
            let trailer = file_trailer_text(size, shown_name, mode, filter, crc);
            dict_meta(trailer.subrange(1, trailer.len() - 1)) == Ok::<
                EntryMeta,
                Malformed<Seq<u8>>,
            >(file_meta(size, encode_utf8(name), mode, encode_utf8(filter), crc))
        }),
{
    let n = encode_utf8(name);
    let f = encode_utf8(filter);
    let trailer = file_trailer_text(size, shown_name, mode, filter, crc);
    let body = choose|body: Seq<char>| shown_name == #[trigger] quoted(body) && spells(body, name);
    lemma_spelled_reads_back(body, name);
    lemma_file_dict(size, encode_utf8(body), n, mode, f, crc);
    lemma_file_trailer(size, body, n, mode, filter, crc);
    assert(trailer.subrange(1, trailer.len() - 1) =~= dict_text(
        file_fields(size, encode_utf8(body), n, mode, f, crc),
    ));
}

/// A written file is read back as one entry with the properties that it was
/// written with, and nothing else. The parentheses in its name must pair up.
pub proof fn law_file_reads_back(
    payload: Seq<u8>,
    shown_name: Seq<char>,
    name: Seq<char>,
    mode: nat,
    filter: Seq<char>,
    crc: nat,
)
    requires
        payload.len() <= u64::MAX,
        shows(shown_name, name),
        is_balanced(encode_utf8(name)),
        mode <= u32::MAX,
        filter_named(encode_utf8(filter)) is Some,
        crc <= u32::MAX,
    ensures
        walk(file_entry_bytes(payload, shown_name, mode, filter, crc)) == (Walked {
            entries: seq![
                Entry {
                    meta: file_meta(
                        payload.len(),
                        encode_utf8(name),
                        mode,
                        encode_utf8(filter),
                        crc,
                    ),
                    offset: 0,
                },
            ],
            end: Ok(()),
        }),
{
    let n = encode_utf8(name);
    let f = encode_utf8(filter);
    let body = choose|body: Seq<char>| shown_name == #[trigger] quoted(body) && spells(body, name);
    let written = encode_utf8(body);
    lemma_spelled_reads_back(body, name);
    lemma_spelled_balanced(body, name);
    lemma_filter_name(f);
    lemma_file_dict(payload.len(), written, n, mode, f, crc);
    lemma_file_dict_balanced(payload.len(), written, n, mode, f, crc);
    lemma_file_trailer(payload.len(), body, n, mode, filter, crc);
    lemma_one_entry(
        payload,
        dict_text(file_fields(payload.len(), written, n, mode, f, crc)),
        file_meta(payload.len(), n, mode, f, crc),
    );
}

/// A written symlink is read back as one entry with the properties that it was
/// written with, and nothing else. The parentheses in its name and in its
/// target must pair up.
pub proof fn law_symlink_reads_back(
    shown_name: Seq<char>,
    name: Seq<char>,
    shown_target: Seq<char>,
    target: Seq<char>,
    mode: nat,
)
    requires
        shows(shown_name, name),
        is_balanced(encode_utf8(name)),
        shows(shown_target, target),
        is_balanced(encode_utf8(target)),
        mode <= u32::MAX,
    ensures
        walk(symlink_trailer_text(shown_name, shown_target, mode)) == (Walked {
            entries: seq![
                Entry {
                    meta: symlink_meta(encode_utf8(name), encode_utf8(target), mode),
                    offset: 0,
                },
            ],
            end: Ok(()),
        }),
{
    let n = encode_utf8(name);
    let t = encode_utf8(target);
    let name_body = choose|body: Seq<char>|
        shown_name == #[trigger] quoted(body) && spells(body, name);
    let target_body = choose|body: Seq<char>|
        shown_target == #[trigger] quoted(body) && spells(body, target);
    let written_name = encode_utf8(name_body);
    let written_target = encode_utf8(target_body);
    let dict = dict_text(symlink_fields(written_name, n, written_target, t, mode));
    lemma_spelled_reads_back(name_body, name);
    lemma_spelled_balanced(name_body, name);
    lemma_spelled_reads_back(target_body, target);
    lemma_spelled_balanced(target_body, target);
    lemma_symlink_dict(written_name, n, written_target, t, mode);
    lemma_symlink_dict_balanced(written_name, n, written_target, t, mode);
    lemma_symlink_trailer(name_body, n, target_body, t, mode);
    lemma_one_entry(Seq::empty(), dict, symlink_meta(n, t, mode));
    let trailer = seq![OPEN] + dict + seq![CLOSE];
    assert(Seq::<u8>::empty() + trailer =~= trailer);
}

/// Where the trailer of the `i`th entry found ends: at the end of the archive,
/// or where the data of the entry found before it starts.
pub open spec fn trailer_end(archive: Seq<u8>, entries: Seq<Entry>, i: int) -> int {
    if i == 0 {
        archive.len() as int
    } else {
        entries[i - 1].offset as int
    }
}

/// Whether the bytes of `archive` from the data of `entry` up to `end` are that
/// entry and nothing else: its data, a parenthesis, its dictionary and another
/// parenthesis.
pub open spec fn fills(archive: Seq<u8>, entry: Entry, end: int) -> bool {
    let open = entry.offset + entry.meta.size;
    &&& open + 2 <= end <= archive.len()
    &&& archive[open as int] == OPEN
    &&& archive[end - 1] == CLOSE
    &&& dict_meta(archive.subrange(open as int + 1, end - 1)) == Ok::<
        EntryMeta,
        Malformed<Seq<u8>>,
    >(entry.meta)
}

proof fn lemma_last_entry_fills(archive: Seq<u8>)
    requires
        archive.len() > 0,
        last_entry(archive) is Ok,
    ensures
        fills(archive, last_entry(archive)->Ok_0, archive.len() as int),
{
    let open = opening(archive.drop_last(), 1)->Ok_0;
    lemma_opening(archive.drop_last(), 1);
    assert(archive[open as int] == archive.drop_last()[open as int]);
}

/// What fills a place at the start of an archive fills it in the whole too.
proof fn lemma_fills_prefix(archive: Seq<u8>, len: int, entry: Entry, end: int)
    requires
        0 <= len <= archive.len(),
        fills(archive.take(len), entry, end),
    ensures
        fills(archive, entry, end),
{
    let before = archive.take(len);
    let open = entry.offset + entry.meta.size;
    assert(archive.subrange(open as int + 1, end - 1) =~= before.subrange(
        open as int + 1,
        end - 1,
    ));
    assert(before[open as int] == archive[open as int]);
    assert(before[end - 1] == archive[end - 1]);
}

/// The entries of an archive fill it without gaps: from the end of the archive
/// on, the trailer of each ends where the data of the one found before it
/// starts, and a walk that ends well has come to the start of the archive.
pub proof fn law_entries_fill_the_archive(archive: Seq<u8>)
    ensures
        ({
            let entries = walk(archive).entries;
            &&& forall|i: int|
                0 <= i < entries.len() ==> fills(
                    archive,
                    #[trigger] entries[i],
                    trailer_end(archive, entries, i),
                )
            &&& walk(archive).end is Ok && entries.len() > 0 ==> entries.last().offset == 0
            &&& walk(archive).end is Ok && entries.len() == 0 ==> archive.len() == 0
        }),
    decreases archive.len(),
{
    if archive.len() > 0 && last_entry(archive) is Ok {
        let entry = last_entry(archive)->Ok_0;
        lemma_last_entry(archive);
        lemma_last_entry_fills(archive);
        let before = archive.take(entry.offset as int);
        law_entries_fill_the_archive(before);
        let entries = walk(archive).entries;
        let earlier = walk(before).entries;
        assert(entries =~= seq![entry] + earlier);
        assert forall|i: int| 0 <= i < entries.len() implies fills(
            archive,
            #[trigger] entries[i],
            trailer_end(archive, entries, i),
        ) by {
            if i > 0 {
                let end = trailer_end(before, earlier, i - 1);
                assert(entries[i] == earlier[i - 1]);
                if i > 1 {
                    assert(entries[i - 1] == earlier[i - 2]);
                }
                lemma_fills_prefix(archive, entry.offset as int, earlier[i - 1], end);
            }
        }
        if walk(archive).end is Ok {
            if earlier.len() > 0 {
                assert(entries.last() == earlier.last());
            } else {
                assert(entries.last() == entry);
            }
        }
    }
}

/// The entries of an archive lie one before the other, each in the bytes that
/// the ones found before it have left.
pub proof fn law_entries_lie_apart(archive: Seq<u8>)
    ensures
        ({
            let entries = walk(archive).entries;
            &&& forall|i: int|
                0 <= i < entries.len() ==> (#[trigger] entries[i]).offset + entries[i].meta.size
                    < archive.len()
            &&& forall|i: int, j: int|
                0 <= i < j < entries.len() ==> (#[trigger] entries[j]).offset + entries[j].meta.size
                    < (#[trigger] entries[i]).offset
        }),
    decreases archive.len(),
{
    if archive.len() > 0 && last_entry(archive) is Ok {
        let entry = last_entry(archive)->Ok_0;
        lemma_last_entry(archive);
        let before = archive.take(entry.offset as int);
        law_entries_lie_apart(before);
        let entries = walk(archive).entries;
        let earlier = walk(before).entries;
        assert(entries =~= seq![entry] + earlier);
        assert forall|i: int| 0 <= i < entries.len() implies (#[trigger] entries[i]).offset
            + entries[i].meta.size < archive.len() by {
            if i > 0 {
                assert(entries[i] == earlier[i - 1]);
            }
        }
        assert forall|i: int, j: int| 0 <= i < j < entries.len() implies (
        #[trigger] entries[j]).offset + entries[j].meta.size < (#[trigger] entries[i]).offset by {
            assert(entries[j] == earlier[j - 1]);
            if i > 0 {
                assert(entries[i] == earlier[i - 1]);
            }
        }
    }
}

} // verus!
