//! The metadata of an entry, and the dictionary that it is read from.
use vstd::prelude::*;
use vstd::utf8::*;

use crate::bytes::{push_text, rest, same_bytes, EQUALS, SPACE};
use crate::malformed::Malformed;
use crate::number::{digit_count, leading_number, lemma_digit_count, read_number};
use crate::text::{lemma_string_extent, parse_byte_string, string_extent, string_value};

verus! {

/// An archive entry's metadata.
#[derive(Debug)]
pub struct ArchiveEntryMeta {
    /// `file` or `symlink`.
    pub entry_type: Vec<u8>,
    /// How many bytes of the archive hold the entry's data.
    pub size: u64,
    /// The Unix mode.
    pub mode: u32,
    /// The path that the entry is extracted to.
    pub name: Vec<u8>,
    /// How the data is compressed.
    pub filter: Vec<u8>,
    /// The CRC-32 of the uncompressed data; 0 where there is none to check.
    pub crc: u32,
    /// What a symlink points to.
    pub target: Vec<u8>,
}

/// The values in an [`ArchiveEntryMeta`].
#[verifier::ext_equal]
pub struct EntryMeta {
    pub entry_type: Seq<u8>,
    pub size: nat,
    pub mode: nat,
    pub name: Seq<u8>,
    pub filter: Seq<u8>,
    pub crc: nat,
    pub target: Seq<u8>,
}

impl View for ArchiveEntryMeta {
    type V = EntryMeta;

    open spec fn view(&self) -> EntryMeta {
        EntryMeta {
            entry_type: self.entry_type@,
            size: self.size as nat,
            mode: self.mode as nat,
            name: self.name@,
            filter: self.filter@,
            crc: self.crc as nat,
            target: self.target@,
        }
    }
}

/// The metadata of an entry whose dictionary sets no field.
pub open spec fn default_meta() -> EntryMeta {
    EntryMeta {
        entry_type: encode_utf8("file"@),
        size: 0,
        mode: 0o664,
        name: Seq::empty(),
        filter: encode_utf8("none"@),
        crc: 0,
        target: Seq::empty(),
    }
}

/// How many bytes of `s` come before its first `=`.
pub open spec fn id_len(s: Seq<u8>) -> nat
    decreases s.len(),
{
    if s.len() == 0 || s[0] == EQUALS {
        0
    } else {
        1 + id_len(s.drop_first())
    }
}

/// The id that the bytes before a `=` spell: blanks do not count.
pub open spec fn id_of(s: Seq<u8>) -> Seq<u8> {
    s.filter(|c: u8| c != SPACE)
}

/// Reads the value of the field `id` from `s`, the bytes after its `=`. Gives
/// the metadata with that field set and how many bytes the value takes.
pub open spec fn set_field(meta: EntryMeta, id: Seq<u8>, s: Seq<u8>) -> Result<
    (EntryMeta, nat),
    Malformed<Seq<u8>>,
> {
    let text = string_value(rest(s, 1));
    let text_extent = 1 + string_extent(rest(s, 1));
    if id == encode_utf8("size"@) {
        if leading_number(s, 10) > u64::MAX {
            Err(Malformed::NumberTooLarge)
        } else {
            Ok((EntryMeta { size: leading_number(s, 10), ..meta }, digit_count(s, 10)))
        }
    } else if id == encode_utf8("mode"@) {
        if leading_number(s, 8) > u32::MAX {
            Err(Malformed::NumberTooLarge)
        } else {
            Ok((EntryMeta { mode: leading_number(s, 8), ..meta }, digit_count(s, 8)))
        }
    } else if id == encode_utf8("name"@) {
        Ok((EntryMeta { name: text, ..meta }, text_extent))
    } else if id == encode_utf8("type"@) {
        Ok((EntryMeta { entry_type: text, ..meta }, text_extent))
    } else if id == encode_utf8("target"@) {
        Ok((EntryMeta { target: text, ..meta }, text_extent))
    } else if id == encode_utf8("filter"@) {
        Ok((EntryMeta { filter: text, ..meta }, text_extent))
    } else if id == encode_utf8("crc"@) {
        if leading_number(s, 10) > u32::MAX {
            Err(Malformed::NumberTooLarge)
        } else {
            Ok((EntryMeta { crc: leading_number(s, 10), ..meta }, digit_count(s, 10)))
        }
    } else {
        Err(Malformed::UnknownId(id))
    }
}

/// Reads the fields of the dictionary `s` in turn, each setting its part of
/// `meta`. What follows the last field and holds no `=` is passed over.
pub open spec fn read_fields(s: Seq<u8>, meta: EntryMeta) -> Result<EntryMeta, Malformed<Seq<u8>>>
    decreases s.len(),
{
    let k = id_len(s) as int;
    if k >= s.len() {
        Ok(meta)
    } else {
        match set_field(meta, id_of(s.take(k)), s.skip(k + 1)) {
            Ok((next, extent)) => read_fields(rest(s, k + 1 + extent), next),
            Err(e) => Err(e),
        }
    }
}

/// The metadata that a dictionary (the text between the parentheses of a
/// trailer) gives.
pub open spec fn dict_meta(dict: Seq<u8>) -> Result<EntryMeta, Malformed<Seq<u8>>> {
    read_fields(dict, default_meta())
}

/// The first `=` ends the id.
pub proof fn lemma_id_len(s: Seq<u8>, k: int)
    requires
        0 <= k <= s.len(),
        forall|i: int| 0 <= i < k ==> #[trigger] s[i] != EQUALS,
        k < s.len() ==> s[k] == EQUALS,
    ensures
        id_len(s) == k,
    decreases k,
{
    if k > 0 {
        let t = s.drop_first();
        assert(s[0] != EQUALS);
        assert forall|i: int| 0 <= i < k - 1 implies #[trigger] t[i] != EQUALS by {
            assert(t[i] == s[i + 1]);
        }
        lemma_id_len(t, k - 1);
    }
}

/// A new byte string with the UTF-8 bytes of `text`.
fn owned(text: &str) -> (bytes: Vec<u8>)
    ensures
        bytes@ == encode_utf8(text@),
{
    let mut bytes: Vec<u8> = Vec::new();
    push_text(&mut bytes, text);
    assert(Seq::<u8>::empty() + encode_utf8(text@) =~= encode_utf8(text@));
    bytes
}

impl ArchiveEntryMeta {
    /// Creates an archive entry's metadata by reading a dictionary (e.g.
    /// `size=12 mode=1234`).
    pub fn parse(dict: &[u8]) -> (meta: Self)
        requires
            dict@.len() < usize::MAX,
            dict_meta(dict@) is Ok,
        ensures
            dict_meta(dict@) == Ok::<EntryMeta, Malformed<Seq<u8>>>(meta@),
            ({
                let expected = dict_meta(dict@)->Ok_0;
                &&& meta.entry_type@ == expected.entry_type
                &&& meta.size == expected.size
                &&& meta.mode == expected.mode
                &&& meta.name@ == expected.name
                &&& meta.filter@ == expected.filter
                &&& meta.crc == expected.crc
                &&& meta.target@ == expected.target
            }),
    {
        Self::try_parse(dict).unwrap()
    }

    /// Creates an archive entry's metadata by reading a dictionary, or says
    /// why it cannot be read.
    pub fn try_parse(dict: &[u8]) -> (meta: Result<Self, Malformed<Vec<u8>>>)
        requires
            dict@.len() < usize::MAX,
        ensures
            match meta {
                Ok(meta) => dict_meta(dict@) == Ok::<EntryMeta, Malformed<Seq<u8>>>(meta@),
                Err(e) => dict_meta(dict@) == Err::<EntryMeta, Malformed<Seq<u8>>>(e@),
            },
    {
        let mut result = ArchiveEntryMeta {
            entry_type: owned("file"),
            size: 0,
            mode: 0o664,
            name: Vec::new(),
            filter: owned("none"),
            crc: 0,
            target: Vec::new(),
        };
        let mut i: usize = 0;
        let mut current_id: Vec<u8> = Vec::with_capacity(16);
        let ghost mut start: int = 0;
        proof {
            reveal(Seq::filter);
            assert(result@ =~= default_meta());
            assert(rest(dict@, 0) =~= dict@);
            assert(dict@.subrange(0, 0) =~= Seq::<u8>::empty());
        }
        while i < dict.len()
            invariant
                dict@.len() < usize::MAX,
                0 <= start <= i,
                i <= dict@.len() + 1,
                i > dict@.len() ==> start == i,
                dict_meta(dict@) == read_fields(rest(dict@, start), result@),
                start <= dict@.len() ==> current_id@ == id_of(dict@.subrange(start, i as int)),
                forall|j: int| start <= j < i ==> #[trigger] dict@[j] != EQUALS,
            decreases dict@.len() + 1 - i,
        {
            let c: u8 = dict[i];
            if c != EQUALS {
                proof {
                    reveal(Seq::filter);
                    let seen = dict@.subrange(start, i + 1);
                    assert(seen.drop_last() =~= dict@.subrange(start, i as int));
                    assert(seen.last() == c);
                }
                if c != SPACE {
                    current_id.push(c);
                }
                i += 1;
                continue ;
            }
            let ghost field = rest(dict@, start);
            let ghost k = i - start;
            proof {
                assert forall|j: int| 0 <= j < k implies #[trigger] field[j] != EQUALS by {
                    assert(field[j] == dict@[start + j]);
                }
                lemma_id_len(field, k);
                assert(field.take(k) =~= dict@.subrange(start, i as int));
                assert(field.skip(k + 1) =~= rest(dict@, i + 1));
            }
            i += 1;
            let ghost before = result@;
            let ghost value = rest(dict@, i as int);
            let ghost set = set_field(before, current_id@, value);
            assert(rest(value, 1) =~= rest(dict@, i + 1));
            result = match result.set(current_id, &mut i, dict) {
                Ok(next) => next,
                Err(e) => {
                    return Err(e);
                },
            };
            proof {
                assert(rest(field, k + 1 + set->Ok_0.1) =~= rest(dict@, i as int));
                start = i as int;
                reveal(Seq::filter);
                if start <= dict@.len() {
                    assert(dict@.subrange(start, start) =~= Seq::<u8>::empty());
                }
            }
            current_id = Vec::with_capacity(16);
        }
        proof {
            let left = rest(dict@, start);
            assert forall|j: int| 0 <= j < left.len() implies #[trigger] left[j] != EQUALS by {
                assert(left[j] == dict@[start + j]);
            }
            lemma_id_len(left, left.len() as int);
        }
        Ok(result)
    }

    /// Sets the field `id` to the value that stands in `dict` at `index`, and
    /// moves `index` past it.
    fn set(self, id: Vec<u8>, index: &mut usize, dict: &[u8]) -> (next: Result<
        Self,
        Malformed<Vec<u8>>,
    >)
        requires
            dict@.len() < usize::MAX,
            *old(index) <= dict@.len(),
        ensures
            match (next, set_field(self@, id@, rest(dict@, *old(index) as int))) {
                (Ok(next), Ok((meta, extent))) => {
                    &&& next@ == meta
                    &&& *final(index) == *old(index) + extent
                    &&& *final(index) <= dict@.len() + 1
                },
                (Err(e), Err(expected)) => e@ == expected,
                _ => false,
            },
    {
        let mut next = self;
        let ghost s = rest(dict@, *index as int);
        proof {
            assert(rest(s, 1) =~= rest(dict@, *index + 1));
            lemma_string_extent(rest(s, 1));
            lemma_digit_count(s, 10);
            lemma_digit_count(s, 8);
        }
        if same_bytes(id.as_slice(), "size".as_bytes()) {
            match read_number(index, dict, 10, u64::MAX) {
                Some(size) => {
                    next.size = size;
                },
                None => {
                    return Err(Malformed::NumberTooLarge);
                },
            }
        } else if same_bytes(id.as_slice(), "mode".as_bytes()) {
            match read_number(index, dict, 8, u32::MAX as u64) {
                Some(mode) => {
                    next.mode = mode as u32;
                },
                None => {
                    return Err(Malformed::NumberTooLarge);
                },
            }
        } else if same_bytes(id.as_slice(), "name".as_bytes()) {
            next.name = parse_byte_string(index, dict);
        } else if same_bytes(id.as_slice(), "type".as_bytes()) {
            next.entry_type = parse_byte_string(index, dict);
        } else if same_bytes(id.as_slice(), "target".as_bytes()) {
            next.target = parse_byte_string(index, dict);
        } else if same_bytes(id.as_slice(), "filter".as_bytes()) {
            next.filter = parse_byte_string(index, dict);
        } else if same_bytes(id.as_slice(), "crc".as_bytes()) {
            match read_number(index, dict, 10, u32::MAX as u64) {
                Some(crc) => {
                    next.crc = crc as u32;
                },
                None => {
                    return Err(Malformed::NumberTooLarge);
                },
            }
        } else {
            return Err(Malformed::UnknownId(id));
        }
        Ok(next)
    }
}

} // verus!
