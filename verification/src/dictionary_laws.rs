//! What each field of a dictionary is read as.
use vstd::prelude::*;
use vstd::utf8::*;

use crate::bytes::{rest, EQUALS, SPACE};
use crate::fields::{kind_id, lemma_first_field, lemma_kind_id, lemma_no_blanks, FieldKind};
use crate::malformed::Malformed;
use crate::meta::{
    dict_meta,
    id_len,
    id_of,
    lemma_id_len,
    read_fields,
    set_field,
    ArchiveEntryMeta,
    EntryMeta,
};
use crate::reading_laws::law_leading_digits_are_read;
use crate::text::{string_extent, string_value};
use crate::walk::{ArchiveEntry, Walk};
use crate::words::lemma_ids_differ;

verus! {

/// The values in an entry's metadata are those of its fields.
pub proof fn law_metadata_are_the_fields(meta: ArchiveEntryMeta)
    ensures
        meta@.entry_type == meta.entry_type@,
        meta@.size == meta.size,
        meta@.mode == meta.mode,
        meta@.name == meta.name@,
        meta@.filter == meta.filter@,
        meta@.crc == meta.crc,
        meta@.target == meta.target@,
{
}

/// The values in what a walk found are those of its entries and of its end, one
/// for one.
pub proof fn law_walks_hold_their_entries(entry: ArchiveEntry, found: Walk)
    ensures
        entry@.offset == entry.offset,
        entry@.meta == entry.meta@,
        found@.entries.len() == found.entries@.len(),
        forall|i: int|
            0 <= i < found.entries@.len() ==> (#[trigger] found@.entries[i]) == found.entries@[i]@,
        found@.end is Ok <==> found.end is Ok,
        found.end matches Err(e) ==> found@.end == Err::<(), Malformed<Seq<u8>>>(e@),
{
}

/// The value in a problem is the same problem, with the bytes of the same id.
pub proof fn law_problems_are_told_apart(problem: Malformed<Vec<u8>>)
    ensures
        problem@ is NoClosingParenthesis <==> problem is NoClosingParenthesis,
        problem@ is NoOpeningParenthesis <==> problem is NoOpeningParenthesis,
        problem@ is TooDeep <==> problem is TooDeep,
        problem@ is UnknownId <==> problem is UnknownId,
        problem@ is NumberTooLarge <==> problem is NumberTooLarge,
        problem@ is SizeTooLarge <==> problem is SizeTooLarge,
        problem matches Malformed::UnknownId(id) ==> problem@ == Malformed::UnknownId(id@),
{
}

/// A dictionary starts from the metadata of an empty file with mode 664, no
/// name, no filter, no checksum and no target.
pub proof fn law_defaults(dict: Seq<u8>)
    ensures
        dict_meta(dict) == read_fields(
            dict,
            EntryMeta {
                entry_type: encode_utf8("file"@),
                size: 0,
                mode: 0o664,
                name: Seq::empty(),
                filter: encode_utf8("none"@),
                crc: 0,
                target: Seq::empty(),
            },
        ),
{
}

/// Bytes without an equals sign hold no field.
pub proof fn law_no_equals_sign_no_field(s: Seq<u8>, meta: EntryMeta)
    requires
        forall|i: int| 0 <= i < s.len() ==> #[trigger] s[i] != 0x3d,
    ensures
        read_fields(s, meta) == Ok::<EntryMeta, Malformed<Seq<u8>>>(meta),
{
    lemma_id_len(s, s.len() as int);
}

/// Blanks do not count before a value, not even inside an id.
pub proof fn law_blanks_do_not_count(before: Seq<u8>, after: Seq<u8>, meta: EntryMeta)
    requires
        forall|i: int| 0 <= i < before.len() ==> #[trigger] before[i] != 0x3d,
    ensures
        read_fields(before + seq![0x20u8] + after, meta) == read_fields(before + after, meta),
{
    let k = id_len(after) as int;
    let n = before.len() as int;
    let with = before + seq![0x20u8] + after;
    let without = before + after;
    lemma_id_end(after);
    assert forall|i: int| 0 <= i < n + 1 + k implies #[trigger] with[i] != EQUALS by {
        if i < n {
            assert(with[i] == before[i]);
        } else if i > n {
            assert(with[i] == after[i - n - 1]);
        }
    }
    assert forall|i: int| 0 <= i < n + k implies #[trigger] without[i] != EQUALS by {
        if i < n {
            assert(without[i] == before[i]);
        } else {
            assert(without[i] == after[i - n]);
        }
    }
    lemma_id_len(with, n + 1 + k);
    lemma_id_len(without, n + k);
    if k < after.len() {
        let end = after.take(k);
        let pred = |c: u8| c != SPACE;
        assert(with.take(n + 1 + k) =~= before + seq![0x20u8] + end);
        assert(without.take(n + k) =~= before + end);
        Seq::filter_distributes_over_add(before + seq![0x20u8], end, pred);
        Seq::filter_distributes_over_add(before, seq![0x20u8], pred);
        Seq::filter_distributes_over_add(before, end, pred);
        assert(seq![0x20u8].filter(pred) =~= Seq::<u8>::empty()) by {
            reveal_with_fuel(Seq::<_>::filter, 2);
            assert(seq![0x20u8].drop_last() =~= Seq::<u8>::empty());
        }
        assert(before.filter(pred) + Seq::<u8>::empty() =~= before.filter(pred));
        assert(id_of(with.take(n + 1 + k)) == id_of(without.take(n + k)));
        assert(with.skip(n + 1 + k + 1) =~= without.skip(n + k + 1));
        if let Ok((next, extent)) = set_field(
            meta,
            id_of(without.take(n + k)),
            without.skip(n + k + 1),
        ) {
            assert(rest(with, n + 1 + k + 1 + extent) =~= rest(without, n + k + 1 + extent));
        }
    }
}

/// The bytes before the first equals sign are none.
proof fn lemma_id_end(s: Seq<u8>)
    ensures
        id_len(s) <= s.len(),
        forall|i: int| 0 <= i < id_len(s) ==> #[trigger] s[i] != EQUALS,
        id_len(s) < s.len() ==> s[id_len(s) as int] == EQUALS,
    decreases s.len(),
{
    if s.len() > 0 && s[0] != EQUALS {
        let t = s.drop_first();
        lemma_id_end(t);
        assert forall|i: int| 0 <= i < id_len(s) implies #[trigger] s[i] != EQUALS by {
            if i > 0 {
                assert(s[i] == t[i - 1]);
            }
        }
    }
}

/// There are seven fields, and no others.
pub proof fn law_other_ids_are_refused(id: Seq<u8>, after: Seq<u8>, meta: EntryMeta)
    requires
        forall|i: int| 0 <= i < id.len() ==> #[trigger] id[i] != 0x3d && id[i] != 0x20,
        id != encode_utf8("size"@),
        id != encode_utf8("mode"@),
        id != encode_utf8("name"@),
        id != encode_utf8("type"@),
        id != encode_utf8("target"@),
        id != encode_utf8("filter"@),
        id != encode_utf8("crc"@),
    ensures
        read_fields(id + seq![0x3du8] + after, meta) == Err::<EntryMeta, Malformed<Seq<u8>>>(
            Malformed::UnknownId(id),
        ),
{
    lemma_no_blanks(id);
    lemma_first_field(id, after, meta);
}

/// A size is a decimal number, and sets the size and nothing else; reading goes
/// on behind its last digit.
pub proof fn law_decimal_size_is_read(written: Seq<u8>, after: Seq<u8>, meta: EntryMeta)
    requires
        forall|i: int| 0 <= i < written.len() ==> 0x30 <= #[trigger] written[i] <= 0x39,
        after.len() > 0 ==> !(0x30 <= after[0] <= 0x39),
    ensures
        ({
            let value = written.fold_left(0int, |n: int, c: u8| n * 10 + (c - 0x30));
            let field = encode_utf8("size"@) + seq![0x3du8] + (written + after);
            &&& value <= u64::MAX ==> read_fields(field, meta) == read_fields(
                after,
                EntryMeta {
                    size: value as nat,
                    mode: meta.mode,
                    name: meta.name,
                    entry_type: meta.entry_type,
                    target: meta.target,
                    filter: meta.filter,
                    crc: meta.crc,
                },
            )
            &&& value > u64::MAX ==> read_fields(field, meta) == Err::<
                EntryMeta,
                Malformed<Seq<u8>>,
            >(Malformed::NumberTooLarge)
        }),
{
    let all = written + after;
    let f10 = |n: int, c: u8| n * 10 + (c - 0x30);
    let base: nat = 10;
    let fb = |n: int, c: u8| n * base + (c - 0x30);
    assert forall|i: int| 0 <= i < written.len() implies 0x30 <= #[trigger] written[i] < 0x30
        + base by {
    }
    law_leading_digits_are_read(written, base, after);
    assert(f10 =~= fb);
    lemma_ids_differ();
    lemma_kind_id(FieldKind::Size);
    lemma_first_field(encode_utf8("size"@), all, meta);
    assert(rest(all, written.len() as int) =~= after);
}

/// A checksum is a decimal number, and sets the checksum and nothing else;
/// reading goes on behind its last digit.
pub proof fn law_decimal_checksum_is_read(written: Seq<u8>, after: Seq<u8>, meta: EntryMeta)
    requires
        forall|i: int| 0 <= i < written.len() ==> 0x30 <= #[trigger] written[i] <= 0x39,
        after.len() > 0 ==> !(0x30 <= after[0] <= 0x39),
    ensures
        ({
            let value = written.fold_left(0int, |n: int, c: u8| n * 10 + (c - 0x30));
            let field = encode_utf8("crc"@) + seq![0x3du8] + (written + after);
            &&& value <= u32::MAX ==> read_fields(field, meta) == read_fields(
                after,
                EntryMeta {
                    size: meta.size,
                    mode: meta.mode,
                    name: meta.name,
                    entry_type: meta.entry_type,
                    target: meta.target,
                    filter: meta.filter,
                    crc: value as nat,
                },
            )
            &&& value > u32::MAX ==> read_fields(field, meta) == Err::<
                EntryMeta,
                Malformed<Seq<u8>>,
            >(Malformed::NumberTooLarge)
        }),
{
    let all = written + after;
    let f10 = |n: int, c: u8| n * 10 + (c - 0x30);
    let base: nat = 10;
    let fb = |n: int, c: u8| n * base + (c - 0x30);
    assert forall|i: int| 0 <= i < written.len() implies 0x30 <= #[trigger] written[i] < 0x30
        + base by {
    }
    law_leading_digits_are_read(written, base, after);
    assert(f10 =~= fb);
    lemma_ids_differ();
    lemma_kind_id(FieldKind::Crc);
    lemma_first_field(encode_utf8("crc"@), all, meta);
    assert(rest(all, written.len() as int) =~= after);
}

/// A mode is an octal number, and sets the mode and nothing else; reading goes
/// on behind its last digit.
pub proof fn law_octal_mode_is_read(written: Seq<u8>, after: Seq<u8>, meta: EntryMeta)
    requires
        forall|i: int| 0 <= i < written.len() ==> 0x30 <= #[trigger] written[i] <= 0x37,
        after.len() > 0 ==> !(0x30 <= after[0] <= 0x37),
    ensures
        ({
            let value = written.fold_left(0int, |n: int, c: u8| n * 8 + (c - 0x30));
            let mode = encode_utf8("mode"@) + seq![0x3du8] + (written + after);
            &&& value <= u32::MAX ==> read_fields(mode, meta) == read_fields(
                after,
                EntryMeta {
                    size: meta.size,
                    mode: value as nat,
                    name: meta.name,
                    entry_type: meta.entry_type,
                    target: meta.target,
                    filter: meta.filter,
                    crc: meta.crc,
                },
            )
            &&& value > u32::MAX ==> read_fields(mode, meta) == Err::<
                EntryMeta,
                Malformed<Seq<u8>>,
            >(Malformed::NumberTooLarge)
        }),
{
    let all = written + after;
    let f8 = |n: int, c: u8| n * 8 + (c - 0x30);
    let base: nat = 8;
    let fb = |n: int, c: u8| n * base + (c - 0x30);
    assert forall|i: int| 0 <= i < written.len() implies 0x30 <= #[trigger] written[i] < 0x30
        + base by {
    }
    law_leading_digits_are_read(written, base, after);
    assert(f8 =~= fb);
    lemma_ids_differ();
    lemma_kind_id(FieldKind::Mode);
    lemma_first_field(encode_utf8("mode"@), all, meta);
    assert(rest(all, written.len() as int) =~= after);
}

/// A name, a type, a target and a filter are strings, and set what they are for
/// and nothing else; reading goes on where the string ends. The byte in place of
/// the opening quote is not looked at.
pub proof fn law_text_fields_are_read(quote: u8, s: Seq<u8>, meta: EntryMeta)
    ensures
        ({
            let value = string_value(s);
            let after = if string_extent(s) <= s.len() {
                s.skip(string_extent(s) as int)
            } else {
                Seq::empty()
            };
            let tail = seq![0x3du8] + (seq![quote] + s);
            &&& read_fields(encode_utf8("name"@) + tail, meta) == read_fields(
                after,
                EntryMeta {
                    size: meta.size,
                    mode: meta.mode,
                    name: value,
                    entry_type: meta.entry_type,
                    target: meta.target,
                    filter: meta.filter,
                    crc: meta.crc,
                },
            )
            &&& read_fields(encode_utf8("type"@) + tail, meta) == read_fields(
                after,
                EntryMeta {
                    size: meta.size,
                    mode: meta.mode,
                    name: meta.name,
                    entry_type: value,
                    target: meta.target,
                    filter: meta.filter,
                    crc: meta.crc,
                },
            )
            &&& read_fields(encode_utf8("target"@) + tail, meta) == read_fields(
                after,
                EntryMeta {
                    size: meta.size,
                    mode: meta.mode,
                    name: meta.name,
                    entry_type: meta.entry_type,
                    target: value,
                    filter: meta.filter,
                    crc: meta.crc,
                },
            )
            &&& read_fields(encode_utf8("filter"@) + tail, meta) == read_fields(
                after,
                EntryMeta {
                    size: meta.size,
                    mode: meta.mode,
                    name: meta.name,
                    entry_type: meta.entry_type,
                    target: meta.target,
                    filter: value,
                    crc: meta.crc,
                },
            )
        }),
{
    lemma_ids_differ();
    lemma_text_value(FieldKind::Name, quote, s, meta);
    lemma_text_value(FieldKind::Type, quote, s, meta);
    lemma_text_value(FieldKind::Target, quote, s, meta);
    lemma_text_value(FieldKind::Filter, quote, s, meta);
}

/// What follows a string that stands behind one more byte.
proof fn lemma_after_string(quote: u8, s: Seq<u8>)
    ensures
        rest(seq![quote] + s, 1) == s,
        rest(seq![quote] + s, 1 + string_extent(s) as int) == (if string_extent(s) <= s.len() {
            s.skip(string_extent(s) as int)
        } else {
            Seq::empty()
        }),
{
    let all = seq![quote] + s;
    let extent = string_extent(s) as int;
    assert(rest(all, 1) =~= s);
    if extent <= s.len() {
        assert(rest(all, 1 + extent) =~= s.skip(extent));
    }
}

/// The value of a field that holds a string.
proof fn lemma_text_set(kind: FieldKind, quote: u8, s: Seq<u8>, meta: EntryMeta)
    requires
        kind is Name || kind is Type || kind is Target || kind is Filter,
    ensures
        ({
            let set = set_field(meta, kind_id(kind), seq![quote] + s);
            &&& set is Ok
            &&& set->Ok_0.1 == 1 + string_extent(s)
        }),
{
    lemma_ids_differ();
    lemma_after_string(quote, s);
}

proof fn lemma_text_value(kind: FieldKind, quote: u8, s: Seq<u8>, meta: EntryMeta)
    requires
        kind is Name || kind is Type || kind is Target || kind is Filter,
    ensures
        ({
            let after = if string_extent(s) <= s.len() {
                s.skip(string_extent(s) as int)
            } else {
                Seq::empty()
            };
            let set = set_field(meta, kind_id(kind), seq![quote] + s);
            &&& set is Ok
            &&& rest(seq![quote] + s, 1) == s
            &&& read_fields(kind_id(kind) + (seq![0x3du8] + (seq![quote] + s)), meta)
                == read_fields(after, set->Ok_0.0)
        }),
{
    let all = seq![quote] + s;
    lemma_kind_id(kind);
    lemma_first_field(kind_id(kind), all, meta);
    assert(kind_id(kind) + (seq![0x3du8] + all) =~= kind_id(kind) + seq![0x3du8] + all);
    lemma_after_string(quote, s);
    lemma_text_set(kind, quote, s, meta);
}

} // verus!
