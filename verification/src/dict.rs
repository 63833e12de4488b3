//! What the trailers of files and symlinks read back as.
use vstd::prelude::*;
use vstd::utf8::*;

use crate::balance::{is_balanced, lemma_no_parentheses};
use crate::bytes::{CLOSE, EQUALS, OPEN, QUOTE, SPACE};
use crate::codec::filter_named;
use crate::escapes::{is_bare, lemma_bare, lemma_quoted, reads_as};
use crate::fields::{
    are_well_formed,
    dict_text,
    field_text,
    law_dictionary_reads_back,
    lemma_dict_balanced,
    lemma_digits_balanced,
    number_field,
    text_field,
    with_fields,
    Field,
    FieldKind,
};
use crate::malformed::Malformed;
use crate::meta::{dict_meta, EntryMeta};
use crate::number::{digits, lemma_digits};
use crate::pack::{file_trailer_text, symlink_trailer_text};
use crate::text::quoted;
use crate::words::lemma_words;

verus! {

/// The metadata of a file with the given properties.
pub open spec fn file_meta(
    size: nat,
    name: Seq<u8>,
    mode: nat,
    filter: Seq<u8>,
    crc: nat,
) -> EntryMeta {
    EntryMeta {
        entry_type: encode_utf8("file"@),
        size,
        mode,
        name,
        filter,
        crc,
        target: Seq::empty(),
    }
}

/// The metadata of a symlink with the given properties.
pub open spec fn symlink_meta(name: Seq<u8>, target: Seq<u8>, mode: nat) -> EntryMeta {
    EntryMeta {
        entry_type: encode_utf8("symlink"@),
        size: 0,
        mode,
        name,
        filter: encode_utf8("none"@),
        crc: 0,
        target,
    }
}

/// The fields in a file's trailer. `written_name` is what stands for the name
/// between its quotes.
pub open spec fn file_fields(
    size: nat,
    written_name: Seq<u8>,
    name: Seq<u8>,
    mode: nat,
    filter: Seq<u8>,
    crc: nat,
) -> Seq<Field> {
    seq![
        number_field(FieldKind::Size, digits(size, 10)),
        text_field(FieldKind::Name, written_name, name),
        number_field(FieldKind::Mode, digits(mode, 8)),
        text_field(FieldKind::Filter, filter, filter),
        number_field(FieldKind::Crc, digits(crc, 10)),
    ]
}

/// The fields in a symlink's trailer.
pub open spec fn symlink_fields(
    written_name: Seq<u8>,
    name: Seq<u8>,
    written_target: Seq<u8>,
    target: Seq<u8>,
    mode: nat,
) -> Seq<Field> {
    let symlink = encode_utf8("symlink"@);
    seq![
        text_field(FieldKind::Name, written_name, name),
        text_field(FieldKind::Type, symlink, symlink),
        text_field(FieldKind::Target, written_target, target),
        number_field(FieldKind::Mode, digits(mode, 8)),
    ]
}

/// The name of a filter is bare and holds no parenthesis.
pub proof fn lemma_filter_name(filter: Seq<u8>)
    requires
        filter_named(filter) is Some,
    ensures
        is_bare(filter),
        is_balanced(filter),
{
    lemma_words();
    lemma_no_parentheses(filter);
}

/// A file's dictionary gives the properties that it was written with.
pub proof fn lemma_file_dict(
    size: nat,
    written_name: Seq<u8>,
    name: Seq<u8>,
    mode: nat,
    filter: Seq<u8>,
    crc: nat,
)
    requires
        size <= u64::MAX,
        reads_as(written_name, name),
        mode <= u32::MAX,
        is_bare(filter),
        crc <= u32::MAX,
    ensures
        dict_meta(dict_text(file_fields(size, written_name, name, mode, filter, crc))) == Ok::<
            EntryMeta,
            Malformed<Seq<u8>>,
        >(file_meta(size, name, mode, filter, crc)),
{
    let fields = file_fields(size, written_name, name, mode, filter, crc);
    lemma_digits(size, 10);
    lemma_digits(mode, 8);
    lemma_digits(crc, 10);
    lemma_bare(filter);
    assert(are_well_formed(fields));
    law_dictionary_reads_back(fields);
    let more = fields.drop_first();
    assert(more =~= seq![fields[1], fields[2], fields[3], fields[4]]);
    assert(more.drop_first() =~= seq![fields[2], fields[3], fields[4]]);
    assert(more.drop_first().drop_first() =~= seq![fields[3], fields[4]]);
    assert(more.drop_first().drop_first().drop_first() =~= seq![fields[4]]);
    reveal_with_fuel(with_fields, 6);
}

/// A file's dictionary is balanced where its name is.
pub proof fn lemma_file_dict_balanced(
    size: nat,
    written_name: Seq<u8>,
    name: Seq<u8>,
    mode: nat,
    filter: Seq<u8>,
    crc: nat,
)
    requires
        is_balanced(written_name),
        is_balanced(filter),
    ensures
        is_balanced(dict_text(file_fields(size, written_name, name, mode, filter, crc))),
{
    lemma_digits(size, 10);
    lemma_digits(mode, 8);
    lemma_digits(crc, 10);
    lemma_digits_balanced(digits(size, 10), 10);
    lemma_digits_balanced(digits(mode, 8), 8);
    lemma_digits_balanced(digits(crc, 10), 10);
    lemma_dict_balanced(file_fields(size, written_name, name, mode, filter, crc));
}

proof fn lemma_symlink_word()
    ensures
        is_bare(encode_utf8("symlink"@)),
        is_balanced(encode_utf8("symlink"@)),
{
    lemma_words();
    lemma_no_parentheses(encode_utf8("symlink"@));
}

/// A symlink's dictionary gives the properties that it was written with.
pub proof fn lemma_symlink_dict(
    written_name: Seq<u8>,
    name: Seq<u8>,
    written_target: Seq<u8>,
    target: Seq<u8>,
    mode: nat,
)
    requires
        reads_as(written_name, name),
        reads_as(written_target, target),
        mode <= u32::MAX,
    ensures
        dict_meta(dict_text(symlink_fields(written_name, name, written_target, target, mode)))
            == Ok::<EntryMeta, Malformed<Seq<u8>>>(symlink_meta(name, target, mode)),
{
    let fields = symlink_fields(written_name, name, written_target, target, mode);
    lemma_digits(mode, 8);
    lemma_symlink_word();
    lemma_bare(encode_utf8("symlink"@));
    assert(are_well_formed(fields));
    law_dictionary_reads_back(fields);
    let more = fields.drop_first();
    assert(more =~= seq![fields[1], fields[2], fields[3]]);
    assert(more.drop_first() =~= seq![fields[2], fields[3]]);
    assert(more.drop_first().drop_first() =~= seq![fields[3]]);
    reveal_with_fuel(with_fields, 5);
}

/// A symlink's dictionary is balanced where its name and its target are.
pub proof fn lemma_symlink_dict_balanced(
    written_name: Seq<u8>,
    name: Seq<u8>,
    written_target: Seq<u8>,
    target: Seq<u8>,
    mode: nat,
)
    requires
        is_balanced(written_name),
        is_balanced(written_target),
    ensures
        is_balanced(
            dict_text(symlink_fields(written_name, name, written_target, target, mode)),
        ),
{
    lemma_symlink_word();
    lemma_digits(mode, 8);
    lemma_digits_balanced(digits(mode, 8), 8);
    lemma_dict_balanced(symlink_fields(written_name, name, written_target, target, mode));
}

/// An id and a value behind what precedes them, grouped as a field.
proof fn lemma_regroup_field(front: Seq<u8>, gap: Seq<u8>, id: Seq<u8>, value: Seq<u8>)
    ensures
        front + (gap + id + seq![EQUALS]) + value == front + gap + (id + seq![EQUALS] + value),
{
    let left = front + (gap + id + seq![EQUALS]) + value;
    let right = front + gap + (id + seq![EQUALS] + value);
    assert(left =~= right);
}

proof fn lemma_regroup(a: Seq<u8>, b: Seq<u8>, c: Seq<u8>)
    ensures
        a + (b + c) == a + b + c,
{
    assert(a + (b + c) =~= a + b + c);
}

/// The quotes that the words around a filter's name hold, moved to the name.
proof fn lemma_regroup_quotes(front: Seq<u8>, before: Seq<u8>, name: Seq<u8>, after: Seq<u8>)
    ensures
        front + (before + seq![QUOTE]) + name + (seq![QUOTE] + after) == front + before + (seq![
            QUOTE,
        ] + name + seq![QUOTE]) + after,
{
    let left = front + (before + seq![QUOTE]) + name + (seq![QUOTE] + after);
    let right = front + before + (seq![QUOTE] + name + seq![QUOTE]) + after;
    assert(left =~= right);
}

/// Four fields behind `front`, written one after the other.
proof fn lemma_four_fields(front: Seq<u8>, f: Seq<Field>)
    requires
        f.len() == 4,
    ensures
        front + dict_text(f) == front + field_text(f[0]) + seq![SPACE] + field_text(f[1]) + seq![
            SPACE,
        ] + field_text(f[2]) + seq![SPACE] + field_text(f[3]),
{
    let gap = seq![SPACE];
    let f1 = f.drop_first();
    let f2 = f1.drop_first();
    let f3 = f2.drop_first();
    assert(dict_text(f3) == field_text(f[3]));
    assert(dict_text(f2) == field_text(f[2]) + (gap + dict_text(f3)));
    assert(dict_text(f1) == field_text(f[1]) + (gap + dict_text(f2)));
    assert(dict_text(f) == field_text(f[0]) + (gap + dict_text(f1)));
    let s0 = front + field_text(f[0]);
    let s1 = s0 + gap + field_text(f[1]);
    let s2 = s1 + gap + field_text(f[2]);
    lemma_regroup(front, field_text(f[0]), gap + dict_text(f1));
    lemma_regroup(s0, gap, dict_text(f1));
    lemma_regroup(s0 + gap, field_text(f[1]), gap + dict_text(f2));
    lemma_regroup(s1, gap, dict_text(f2));
    lemma_regroup(s1 + gap, field_text(f[2]), gap + dict_text(f3));
    lemma_regroup(s2, gap, dict_text(f3));
}

/// The words of a file's trailer, in pieces.
proof fn lemma_file_words()
    ensures
        encode_utf8("(size="@) == seq![OPEN] + encode_utf8("size"@) + seq![EQUALS],
        encode_utf8(" name="@) == seq![SPACE] + encode_utf8("name"@) + seq![EQUALS],
        encode_utf8(" mode="@) == seq![SPACE] + encode_utf8("mode"@) + seq![EQUALS],
        encode_utf8(" filter=\""@) == seq![SPACE] + encode_utf8("filter"@) + seq![EQUALS] + seq![
            QUOTE,
        ],
        encode_utf8("\" crc="@) == seq![QUOTE] + (seq![SPACE] + encode_utf8("crc"@) + seq![EQUALS]),
        encode_utf8(")"@) == seq![CLOSE],
{
    lemma_words();
}

/// A file's trailer is its dictionary between parentheses.
pub proof fn lemma_file_trailer(
    size: nat,
    body: Seq<char>,
    name: Seq<u8>,
    mode: nat,
    filter: Seq<char>,
    crc: nat,
)
    ensures
        file_trailer_text(size, quoted(body), mode, filter, crc) == seq![OPEN] + dict_text(
            file_fields(size, encode_utf8(body), name, mode, encode_utf8(filter), crc),
        ) + seq![CLOSE],
{
    let f = file_fields(size, encode_utf8(body), name, mode, encode_utf8(filter), crc);
    let none = Seq::<u8>::empty();
    let gap = seq![SPACE];
    let shown = encode_utf8(quoted(body));
    let shown_filter = seq![QUOTE] + encode_utf8(filter) + seq![QUOTE];
    let size_text = digits(size, 10);
    lemma_file_words();
    lemma_quoted(body);
    let s0 = seq![OPEN] + field_text(f[0]);
    let s1 = s0 + gap + field_text(f[1]);
    let s2 = s1 + gap + field_text(f[2]);
    let s3 = s2 + gap + field_text(f[3]);
    let s4 = s3 + gap + field_text(f[4]);
    lemma_regroup_field(none, seq![OPEN], encode_utf8("size"@), size_text);
    assert(none + encode_utf8("(size="@) =~= encode_utf8("(size="@));
    assert(none + seq![OPEN] =~= seq![OPEN]);
    lemma_regroup_field(s0, gap, encode_utf8("name"@), shown);
    lemma_regroup_field(s1, gap, encode_utf8("mode"@), digits(mode, 8));
    lemma_regroup_quotes(
        s2,
        gap + encode_utf8("filter"@) + seq![EQUALS],
        encode_utf8(filter),
        gap + encode_utf8("crc"@) + seq![EQUALS],
    );
    lemma_regroup_field(s2, gap, encode_utf8("filter"@), shown_filter);
    lemma_regroup_field(s3, gap, encode_utf8("crc"@), digits(crc, 10));
    let more = f.drop_first();
    lemma_four_fields(s0 + gap, more);
    lemma_regroup(s0, gap, dict_text(more));
    lemma_regroup(seq![OPEN], field_text(f[0]), gap + dict_text(more));
    assert(dict_text(f) == field_text(f[0]) + (gap + dict_text(more)));
    assert(seq![OPEN] + dict_text(f) == s4);
}

/// The words of a symlink's trailer, in pieces.
proof fn lemma_symlink_words()
    ensures
        encode_utf8("(name="@) == seq![OPEN] + encode_utf8("name"@) + seq![EQUALS],
        encode_utf8(" type=\"symlink\" target="@) == seq![SPACE] + encode_utf8("type"@) + seq![
            EQUALS,
        ] + (seq![QUOTE] + encode_utf8("symlink"@) + seq![QUOTE]) + (seq![SPACE] + encode_utf8(
            "target"@,
        ) + seq![EQUALS]),
        encode_utf8(" mode="@) == seq![SPACE] + encode_utf8("mode"@) + seq![EQUALS],
        encode_utf8(")"@) == seq![CLOSE],
{
    lemma_words();
}

/// A symlink's trailer is its dictionary between parentheses.
pub proof fn lemma_symlink_trailer(
    name_body: Seq<char>,
    name: Seq<u8>,
    target_body: Seq<char>,
    target: Seq<u8>,
    mode: nat,
)
    ensures
        symlink_trailer_text(quoted(name_body), quoted(target_body), mode) == seq![OPEN]
            + dict_text(
            symlink_fields(encode_utf8(name_body), name, encode_utf8(target_body), target, mode),
        ) + seq![CLOSE],
{
    let f = symlink_fields(encode_utf8(name_body), name, encode_utf8(target_body), target, mode);
    let none = Seq::<u8>::empty();
    let gap = seq![SPACE];
    let shown_type = seq![QUOTE] + encode_utf8("symlink"@) + seq![QUOTE];
    let type_word = gap + encode_utf8("type"@) + seq![EQUALS];
    let target_word = gap + encode_utf8("target"@) + seq![EQUALS];
    lemma_symlink_words();
    lemma_quoted(name_body);
    lemma_quoted(target_body);
    let s0 = seq![OPEN] + field_text(f[0]);
    let s1 = s0 + gap + field_text(f[1]);
    let s2 = s1 + gap + field_text(f[2]);
    lemma_regroup_field(none, seq![OPEN], encode_utf8("name"@), encode_utf8(quoted(name_body)));
    assert(none + encode_utf8("(name="@) =~= encode_utf8("(name="@));
    assert(none + seq![OPEN] =~= seq![OPEN]);
    lemma_regroup(s0, type_word + shown_type, target_word);
    lemma_regroup(s0, type_word, shown_type);
    lemma_regroup_field(s0, gap, encode_utf8("type"@), shown_type);
    lemma_regroup_field(s1, gap, encode_utf8("target"@), encode_utf8(quoted(target_body)));
    lemma_regroup_field(s2, gap, encode_utf8("mode"@), digits(mode, 8));
    lemma_four_fields(seq![OPEN], f);
}

} // verus!
