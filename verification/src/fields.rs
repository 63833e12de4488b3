//! The fields of a dictionary, and what they read back as.
use vstd::prelude::*;
use vstd::utf8::*;

use crate::balance::{is_balanced, lemma_balanced_concat, lemma_no_parentheses};
use crate::bytes::{rest, CLOSE, EQUALS, OPEN, QUOTE, SPACE};
use crate::escapes::reads_as;
use crate::malformed::Malformed;
use crate::meta::{
    default_meta,
    dict_meta,
    id_len,
    id_of,
    lemma_id_len,
    read_fields,
    set_field,
    EntryMeta,
};
use crate::number::{digits_value, is_digit, lemma_leading_digits};
use crate::text::{string_extent, string_value};
use crate::words::{lemma_ids_differ, lemma_words};

verus! {

/// The ids that a field can have.
pub enum FieldKind {
    Size,
    Mode,
    Name,
    Type,
    Target,
    Filter,
    Crc,
}

/// A field of a dictionary. `written` is the digits of a number, or what stands
/// between the quotes of a string; `text` is the same digits, or what the string
/// stands for.
#[verifier::ext_equal]
pub struct Field {
    pub kind: FieldKind,
    pub written: Seq<u8>,
    pub text: Seq<u8>,
}

/// A field that holds a number.
pub open spec fn number_field(kind: FieldKind, written: Seq<u8>) -> Field {
    Field { kind, written, text: written }
}

/// A field that holds a string.
pub open spec fn text_field(kind: FieldKind, written: Seq<u8>, text: Seq<u8>) -> Field {
    Field { kind, written, text }
}

/// The id of a field.
pub open spec fn kind_id(kind: FieldKind) -> Seq<u8> {
    match kind {
        FieldKind::Size => encode_utf8("size"@),
        FieldKind::Mode => encode_utf8("mode"@),
        FieldKind::Name => encode_utf8("name"@),
        FieldKind::Type => encode_utf8("type"@),
        FieldKind::Target => encode_utf8("target"@),
        FieldKind::Filter => encode_utf8("filter"@),
        FieldKind::Crc => encode_utf8("crc"@),
    }
}

/// Whether `s` is made of digits only.
pub open spec fn all_digits(s: Seq<u8>, base: nat) -> bool {
    forall|i: int| 0 <= i < s.len() ==> is_digit(#[trigger] s[i], base)
}

/// The base of the numbers that fields of one kind hold; `None` where they hold
/// strings.
pub open spec fn number_base(kind: FieldKind) -> Option<nat> {
    match kind {
        FieldKind::Size => Some(10),
        FieldKind::Mode => Some(8),
        FieldKind::Crc => Some(10),
        _ => None,
    }
}

/// The largest number that a field can hold.
pub open spec fn largest(kind: FieldKind) -> nat {
    if kind == FieldKind::Size {
        u64::MAX as nat
    } else {
        u32::MAX as nat
    }
}

/// Whether a field is well formed: a number is made of digits and fits, and a
/// string ends at its closing quote and stands for its text.
pub open spec fn is_well_formed(field: Field) -> bool {
    match number_base(field.kind) {
        Some(base) => {
            &&& all_digits(field.written, base)
            &&& digits_value(field.written, base) <= largest(field.kind)
            &&& field.text == field.written
        },
        None => reads_as(field.written, field.text),
    }
}

/// The value of a field as it is written: a number as it is, a string between
/// quotes.
pub open spec fn value_text(field: Field) -> Seq<u8> {
    match number_base(field.kind) {
        Some(_) => field.written,
        None => seq![QUOTE] + field.written + seq![QUOTE],
    }
}

/// A field as it is written.
pub open spec fn field_text(field: Field) -> Seq<u8> {
    kind_id(field.kind) + seq![EQUALS] + value_text(field)
}

/// A dictionary as it is written: its fields with single blanks between them.
pub open spec fn dict_text(fields: Seq<Field>) -> Seq<u8>
    decreases fields.len(),
{
    if fields.len() == 0 {
        Seq::empty()
    } else if fields.len() == 1 {
        field_text(fields[0])
    } else {
        field_text(fields[0]) + (seq![SPACE] + dict_text(fields.drop_first()))
    }
}

/// The metadata with one field set.
pub open spec fn with_field(meta: EntryMeta, field: Field) -> EntryMeta {
    match field.kind {
        FieldKind::Size => EntryMeta { size: digits_value(field.text, 10), ..meta },
        FieldKind::Mode => EntryMeta { mode: digits_value(field.text, 8), ..meta },
        FieldKind::Name => EntryMeta { name: field.text, ..meta },
        FieldKind::Type => EntryMeta { entry_type: field.text, ..meta },
        FieldKind::Target => EntryMeta { target: field.text, ..meta },
        FieldKind::Filter => EntryMeta { filter: field.text, ..meta },
        FieldKind::Crc => EntryMeta { crc: digits_value(field.text, 10), ..meta },
    }
}

/// The metadata with fields set one after the other.
pub open spec fn with_fields(meta: EntryMeta, fields: Seq<Field>) -> EntryMeta
    decreases fields.len(),
{
    if fields.len() == 0 {
        meta
    } else {
        with_fields(with_field(meta, fields[0]), fields.drop_first())
    }
}

/// Reading a dictionary starts with its first field.
pub proof fn lemma_first_field(before: Seq<u8>, after: Seq<u8>, meta: EntryMeta)
    requires
        forall|i: int| 0 <= i < before.len() ==> #[trigger] before[i] != EQUALS,
    ensures
        read_fields(before + seq![EQUALS] + after, meta) == (match set_field(
            meta,
            id_of(before),
            after,
        ) {
            Ok((next, extent)) => read_fields(rest(after, extent as int), next),
            Err(e) => Err::<EntryMeta, Malformed<Seq<u8>>>(e),
        }),
{
    let s = before + seq![EQUALS] + after;
    let k = before.len() as int;
    assert forall|i: int| 0 <= i < k implies #[trigger] s[i] != EQUALS by {
        assert(s[i] == before[i]);
    }
    lemma_id_len(s, k);
    assert(s.take(k) =~= before);
    assert(s.skip(k + 1) =~= after);
    if let Ok((next, extent)) = set_field(meta, id_of(before), after) {
        assert(rest(s, k + 1 + extent) =~= rest(after, extent as int));
    }
}

/// An id without blanks is read as it is.
pub proof fn lemma_no_blanks(s: Seq<u8>)
    requires
        forall|i: int| 0 <= i < s.len() ==> #[trigger] s[i] != SPACE,
    ensures
        id_of(s) == s,
    decreases s.len(),
{
    reveal(Seq::filter);
    if s.len() > 0 {
        let t = s.drop_last();
        assert forall|i: int| 0 <= i < t.len() implies #[trigger] t[i] != SPACE by {
            assert(t[i] == s[i]);
        }
        lemma_no_blanks(t);
        assert(t.push(s.last()) =~= s);
    }
}

/// Ids hold no blank, no equals sign and no parenthesis.
pub proof fn lemma_kind_id(kind: FieldKind)
    ensures
        id_of(kind_id(kind)) == kind_id(kind),
        forall|i: int| 0 <= i < kind_id(kind).len() ==> #[trigger] kind_id(kind)[i] != EQUALS,
        is_balanced(kind_id(kind)),
{
    let id = kind_id(kind);
    lemma_words();
    assert(id.len() <= 6);
    assert forall|i: int| 0 <= i < id.len() implies #[trigger] id[i] != SPACE && id[i] != EQUALS
        && id[i] != OPEN && id[i] != CLOSE by {
        assert(i == 0 || i == 1 || i == 2 || i == 3 || i == 4 || i == 5);
    }
    lemma_no_blanks(id);
    lemma_no_parentheses(id);
}

/// A blank in front of a dictionary is passed over.
proof fn lemma_leading_blank(s: Seq<u8>, meta: EntryMeta)
    ensures
        read_fields(seq![SPACE] + s, meta) == read_fields(s, meta),
{
    let all = seq![SPACE] + s;
    let k = id_len(s) as int;
    assert(all.drop_first() =~= s);
    assert(all[0] == SPACE);
    assert(id_len(all) == 1 + k);
    if k < s.len() {
        let id = s.take(k);
        assert(all.take(k + 1) =~= seq![SPACE] + id);
        assert(id_of(seq![SPACE] + id) == id_of(id)) by {
            let pred = |c: u8| c != SPACE;
            Seq::filter_distributes_over_add(seq![SPACE], id, pred);
            reveal_with_fuel(Seq::<_>::filter, 2);
            assert(seq![SPACE].drop_last() =~= Seq::<u8>::empty());
            assert(seq![SPACE].filter(pred) =~= Seq::<u8>::empty());
            assert(Seq::<u8>::empty() + id.filter(pred) =~= id.filter(pred));
        }
        assert(all.skip(k + 2) =~= s.skip(k + 1));
        if let Ok((next, extent)) = set_field(meta, id_of(id), s.skip(k + 1)) {
            assert(rest(all, k + 2 + extent) =~= rest(s, k + 1 + extent));
        }
    }
}

/// The value of a field is taken from what follows its equals sign.
proof fn lemma_value(field: Field, tail: Seq<u8>, meta: EntryMeta)
    requires
        is_well_formed(field),
        tail.len() > 0 ==> tail[0] == SPACE,
    ensures
        set_field(meta, kind_id(field.kind), value_text(field) + tail) matches Ok((next, extent))
            && next == with_field(meta, field) && (rest(value_text(field) + tail, extent as int)
            == tail || rest(value_text(field) + tail, extent as int) == rest(tail, 1)),
{
    let text = field.text;
    let s = value_text(field) + tail;
    lemma_ids_differ();
    match field.kind {
        FieldKind::Size => {
            lemma_leading_digits(text, 10, tail);
            assert(rest(s, text.len() as int) =~= tail);
        },
        FieldKind::Mode => {
            lemma_leading_digits(text, 8, tail);
            assert(rest(s, text.len() as int) =~= tail);
        },
        FieldKind::Crc => {
            lemma_leading_digits(text, 10, tail);
            assert(rest(s, text.len() as int) =~= tail);
        },
        _ => {
            let written = field.written;
            assert(rest(s, 1) =~= written + seq![QUOTE] + tail);
            assert(string_value(written + seq![QUOTE] + tail) == text);
            assert(string_extent(written + seq![QUOTE] + tail) == written.len() + 2);
            assert(rest(s, 1 + (written.len() as int + 2)) =~= rest(tail, 1));
        },
    }
}

/// Reading goes on behind a value, and behind the blank that follows it.
proof fn lemma_value_then_blank(
    id: Seq<u8>,
    value: Seq<u8>,
    tail: Seq<u8>,
    meta: EntryMeta,
    next: EntryMeta,
    extent: nat,
)
    requires
        id_of(id) == id,
        forall|i: int| 0 <= i < id.len() ==> #[trigger] id[i] != EQUALS,
        set_field(meta, id, value + tail) == Ok::<(EntryMeta, nat), Malformed<Seq<u8>>>(
            (next, extent),
        ),
        rest(value + tail, extent as int) == tail || rest(value + tail, extent as int) == rest(
            tail,
            1,
        ),
        tail.len() > 0 ==> tail[0] == SPACE,
    ensures
        read_fields(id + seq![EQUALS] + (value + tail), meta) == read_fields(rest(tail, 1), next),
{
    lemma_first_field(id, value + tail, meta);
    if tail.len() > 0 {
        lemma_leading_blank(rest(tail, 1), next);
        assert(seq![SPACE] + rest(tail, 1) =~= tail);
    } else {
        assert(rest(tail, 1) =~= tail);
    }
}

/// Reading a dictionary sets its first field and goes on behind the blank.
proof fn lemma_field(field: Field, tail: Seq<u8>, meta: EntryMeta)
    requires
        is_well_formed(field),
        tail.len() > 0 ==> tail[0] == SPACE,
    ensures
        read_fields(field_text(field) + tail, meta) == read_fields(
            rest(tail, 1),
            with_field(meta, field),
        ),
{
    let id = kind_id(field.kind);
    let value = value_text(field);
    lemma_kind_id(field.kind);
    lemma_value(field, tail, meta);
    let set = set_field(meta, id, value + tail)->Ok_0;
    lemma_value_then_blank(id, value, tail, meta, set.0, set.1);
    assert(id + seq![EQUALS] + value + tail =~= id + seq![EQUALS] + (value + tail));
}

/// Whether all fields of a dictionary are well formed.
pub open spec fn are_well_formed(fields: Seq<Field>) -> bool {
    forall|i: int| 0 <= i < fields.len() ==> is_well_formed(#[trigger] fields[i])
}

proof fn lemma_read_fields(fields: Seq<Field>, meta: EntryMeta)
    requires
        are_well_formed(fields),
    ensures
        read_fields(dict_text(fields), meta) == Ok::<EntryMeta, Malformed<Seq<u8>>>(
            with_fields(meta, fields),
        ),
    decreases fields.len(),
{
    if fields.len() > 0 {
        let first = fields[0];
        let more = fields.drop_first();
        assert forall|i: int| 0 <= i < more.len() implies is_well_formed(#[trigger] more[i]) by {
            assert(more[i] == fields[i + 1]);
        }
        lemma_read_fields(more, with_field(meta, first));
        if fields.len() == 1 {
            lemma_field(first, Seq::empty(), meta);
            assert(field_text(first) + Seq::empty() =~= field_text(first));
        } else {
            let tail = seq![SPACE] + dict_text(more);
            lemma_field(first, tail, meta);
            assert(rest(tail, 1) =~= dict_text(more));
        }
    }
}

/// A dictionary reads back as its fields, set one after the other on top of the
/// defaults.
pub proof fn law_dictionary_reads_back(fields: Seq<Field>)
    requires
        are_well_formed(fields),
    ensures
        dict_meta(dict_text(fields)) == Ok::<EntryMeta, Malformed<Seq<u8>>>(
            with_fields(default_meta(), fields),
        ),
{
    lemma_read_fields(fields, default_meta());
}

/// Whether the part of `meta` that a field is for has the field's value.
pub open spec fn has_value(meta: EntryMeta, field: Field) -> bool {
    match field.kind {
        FieldKind::Size => meta.size == digits_value(field.text, 10),
        FieldKind::Mode => meta.mode == digits_value(field.text, 8),
        FieldKind::Name => meta.name == field.text,
        FieldKind::Type => meta.entry_type == field.text,
        FieldKind::Target => meta.target == field.text,
        FieldKind::Filter => meta.filter == field.text,
        FieldKind::Crc => meta.crc == digits_value(field.text, 10),
    }
}

/// Whether `a` and `b` agree on the part that fields of one kind are for.
pub open spec fn agree_on(a: EntryMeta, b: EntryMeta, kind: FieldKind) -> bool {
    match kind {
        FieldKind::Size => a.size == b.size,
        FieldKind::Mode => a.mode == b.mode,
        FieldKind::Name => a.name == b.name,
        FieldKind::Type => a.entry_type == b.entry_type,
        FieldKind::Target => a.target == b.target,
        FieldKind::Filter => a.filter == b.filter,
        FieldKind::Crc => a.crc == b.crc,
    }
}

/// Whether a dictionary has a field of one kind.
pub open spec fn has_kind(fields: Seq<Field>, kind: FieldKind) -> bool {
    exists|i: int| 0 <= i < fields.len() && (#[trigger] fields[i]).kind == kind
}

/// Whether no two fields of a dictionary are of the same kind.
pub open spec fn kinds_differ(fields: Seq<Field>) -> bool {
    forall|i: int, j: int|
        0 <= i < j < fields.len() ==> (#[trigger] fields[i]).kind != (#[trigger] fields[j]).kind
}

proof fn lemma_with_fields(meta: EntryMeta, fields: Seq<Field>)
    requires
        kinds_differ(fields),
    ensures
        forall|i: int|
            0 <= i < fields.len() ==> has_value(with_fields(meta, fields), #[trigger] fields[i]),
        forall|kind: FieldKind|
            !has_kind(fields, kind) ==> #[trigger] agree_on(with_fields(meta, fields), meta, kind),
    decreases fields.len(),
{
    let all = with_fields(meta, fields);
    if fields.len() > 0 {
        let first = fields[0];
        let more = fields.drop_first();
        let next = with_field(meta, first);
        assert forall|i: int, j: int| 0 <= i < j < more.len() implies (#[trigger] more[i]).kind != (
        #[trigger] more[j]).kind by {
            assert(more[i] == fields[i + 1]);
            assert(more[j] == fields[j + 1]);
        }
        lemma_with_fields(next, more);
        assert(all == with_fields(next, more));
        assert(!has_kind(more, first.kind)) by {
            assert forall|i: int| 0 <= i < more.len() implies (#[trigger] more[i]).kind
                != first.kind by {
                assert(more[i] == fields[i + 1]);
                assert(fields[0].kind != fields[i + 1].kind);
            }
        }
        assert(agree_on(all, next, first.kind));
        assert forall|i: int| 0 <= i < fields.len() implies has_value(
            all,
            #[trigger] fields[i],
        ) by {
            if i > 0 {
                assert(fields[i] == more[i - 1]);
            }
        }
        assert forall|kind: FieldKind| !has_kind(fields, kind) implies #[trigger] agree_on(
            all,
            meta,
            kind,
        ) by {
            assert(fields[0].kind != kind);
            assert(!has_kind(more, kind)) by {
                assert forall|i: int| 0 <= i < more.len() implies (#[trigger] more[i]).kind
                    != kind by {
                    assert(more[i] == fields[i + 1]);
                }
            }
            assert(agree_on(all, next, kind));
        }
    }
}

/// Where no two fields are of the same kind, each of them sets its part of the
/// metadata, and what no field is for has its default.
pub proof fn law_fields_set_their_parts(fields: Seq<Field>)
    requires
        are_well_formed(fields),
        kinds_differ(fields),
    ensures
        dict_meta(dict_text(fields)) is Ok,
        ({
            let meta = dict_meta(dict_text(fields))->Ok_0;
            &&& forall|i: int| 0 <= i < fields.len() ==> has_value(meta, #[trigger] fields[i])
            &&& forall|kind: FieldKind|
                !has_kind(fields, kind) ==> #[trigger] agree_on(meta, default_meta(), kind)
        }),
{
    law_dictionary_reads_back(fields);
    lemma_with_fields(default_meta(), fields);
}

/// The order of the fields does not matter where no two are of the same kind.
pub proof fn law_order_does_not_matter(a: Seq<Field>, b: Seq<Field>)
    requires
        are_well_formed(a),
        are_well_formed(b),
        kinds_differ(a),
        kinds_differ(b),
        forall|field: Field| a.contains(field) <==> b.contains(field),
    ensures
        dict_meta(dict_text(a)) is Ok,
        dict_meta(dict_text(a)) == dict_meta(dict_text(b)),
{
    law_fields_set_their_parts(a);
    law_fields_set_their_parts(b);
    let m = dict_meta(dict_text(a))->Ok_0;
    let n = dict_meta(dict_text(b))->Ok_0;
    assert forall|kind: FieldKind| agree_on(m, n, kind) by {
        if has_kind(a, kind) {
            let i = choose|i: int| 0 <= i < a.len() && (#[trigger] a[i]).kind == kind;
            assert(a.contains(a[i]));
            let j = choose|j: int| 0 <= j < b.len() && b[j] == a[i];
            assert(has_value(m, a[i]));
            assert(has_value(n, b[j]));
        } else {
            assert(!has_kind(b, kind)) by {
                if has_kind(b, kind) {
                    let j = choose|j: int| 0 <= j < b.len() && (#[trigger] b[j]).kind == kind;
                    assert(b.contains(b[j]));
                    let i = choose|i: int| 0 <= i < a.len() && a[i] == b[j];
                    assert(a[i].kind == kind);
                }
            }
            assert(agree_on(m, default_meta(), kind));
            assert(agree_on(n, default_meta(), kind));
        }
    }
    assert(agree_on(m, n, FieldKind::Size));
    assert(agree_on(m, n, FieldKind::Mode));
    assert(agree_on(m, n, FieldKind::Name));
    assert(agree_on(m, n, FieldKind::Type));
    assert(agree_on(m, n, FieldKind::Target));
    assert(agree_on(m, n, FieldKind::Filter));
    assert(agree_on(m, n, FieldKind::Crc));
}

/// Digits are no parentheses.
pub proof fn lemma_digits_balanced(s: Seq<u8>, base: nat)
    requires
        2 <= base <= 10,
        all_digits(s, base),
    ensures
        is_balanced(s),
{
    assert forall|i: int| 0 <= i < s.len() implies #[trigger] s[i] != OPEN && s[i] != CLOSE by {
        assert(is_digit(s[i], base));
    }
    lemma_no_parentheses(s);
}

proof fn lemma_field_balanced(field: Field)
    requires
        is_balanced(field.written),
    ensures
        is_balanced(field_text(field)),
{
    let id = kind_id(field.kind);
    let written = field.written;
    lemma_kind_id(field.kind);
    lemma_no_parentheses(seq![EQUALS]);
    lemma_no_parentheses(seq![QUOTE]);
    lemma_balanced_concat(seq![QUOTE], written);
    lemma_balanced_concat(seq![QUOTE] + written, seq![QUOTE]);
    lemma_balanced_concat(id, seq![EQUALS]);
    lemma_balanced_concat(id + seq![EQUALS], value_text(field));
}

/// A dictionary is balanced where the values of its fields are.
pub proof fn lemma_dict_balanced(fields: Seq<Field>)
    requires
        forall|i: int| 0 <= i < fields.len() ==> is_balanced((#[trigger] fields[i]).written),
    ensures
        is_balanced(dict_text(fields)),
    decreases fields.len(),
{
    if fields.len() == 0 {
        lemma_no_parentheses(Seq::empty());
    } else {
        let more = fields.drop_first();
        assert forall|i: int| 0 <= i < more.len() implies is_balanced(
            (#[trigger] more[i]).written,
        ) by {
            assert(more[i] == fields[i + 1]);
        }
        lemma_field_balanced(fields[0]);
        lemma_dict_balanced(more);
        lemma_no_parentheses(seq![SPACE]);
        lemma_balanced_concat(seq![SPACE], dict_text(more));
        lemma_balanced_concat(field_text(fields[0]), seq![SPACE] + dict_text(more));
    }
}

} // verus!
