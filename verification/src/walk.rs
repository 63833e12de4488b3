//! Finding the entries of an archive, from its end backwards.
use vstd::prelude::*;

use crate::bytes::{CLOSE, OPEN};
use crate::malformed::Malformed;
use crate::meta::{dict_meta, ArchiveEntryMeta, EntryMeta};

verus! {

/// An entry and where its data starts in the archive.
#[derive(Debug)]
pub struct ArchiveEntry {
    pub meta: ArchiveEntryMeta,
    pub offset: u64,
}

/// The values in an [`ArchiveEntry`].
#[verifier::ext_equal]
pub struct Entry {
    pub meta: EntryMeta,
    pub offset: nat,
}

impl View for ArchiveEntry {
    type V = Entry;

    open spec fn view(&self) -> Entry {
        Entry { meta: self.meta@, offset: self.offset as nat }
    }
}

/// The entries of an archive, last one first, and how the walk through them
/// ended: at the start of the archive, or at bytes that are no entry.
#[derive(Debug)]
pub struct Walk {
    pub entries: Vec<ArchiveEntry>,
    pub end: Result<(), Malformed<Vec<u8>>>,
}

/// The values in a [`Walk`].
#[verifier::ext_equal]
pub struct Walked {
    pub entries: Seq<Entry>,
    pub end: Result<(), Malformed<Seq<u8>>>,
}

/// The values in the entries of a list.
pub open spec fn entries_view(entries: Seq<ArchiveEntry>) -> Seq<Entry> {
    Seq::new(entries.len(), |i: int| entries[i]@)
}

/// The value in a result without contents.
pub open spec fn end_view(end: Result<(), Malformed<Vec<u8>>>) -> Result<
    (),
    Malformed<Seq<u8>>,
> {
    match end {
        Ok(()) => Ok(()),
        Err(e) => Err(e@),
    }
}

impl View for Walk {
    type V = Walked;

    open spec fn view(&self) -> Walked {
        Walked { entries: entries_view(self.entries@), end: end_view(self.end) }
    }
}

/// Where the `(` stands that matches the last of `depth` closing parentheses
/// that follow `s`.
pub open spec fn opening(s: Seq<u8>, depth: nat) -> Result<nat, Malformed<Seq<u8>>>
    decreases s.len(),
{
    if s.len() == 0 {
        Err(Malformed::NoOpeningParenthesis)
    } else if s.last() == CLOSE {
        if depth >= u32::MAX {
            Err(Malformed::TooDeep)
        } else {
            opening(s.drop_last(), depth + 1)
        }
    } else if s.last() == OPEN {
        if depth <= 1 {
            Ok((s.len() - 1) as nat)
        } else {
            opening(s.drop_last(), (depth - 1) as nat)
        }
    } else {
        opening(s.drop_last(), depth)
    }
}

/// The last entry of an archive that is not empty.
pub open spec fn last_entry(archive: Seq<u8>) -> Result<Entry, Malformed<Seq<u8>>> {
    if archive.last() != CLOSE {
        Err(Malformed::NoClosingParenthesis)
    } else {
        match opening(archive.drop_last(), 1) {
            Err(e) => Err(e),
            Ok(open) => match dict_meta(archive.subrange(open as int + 1, archive.len() - 1)) {
                Err(e) => Err(e),
                Ok(meta) => if meta.size > open {
                    Err(Malformed::SizeTooLarge)
                } else {
                    Ok(Entry { meta, offset: (open - meta.size) as nat })
                },
            },
        }
    }
}

/// All entries of an archive: its last one, then those of what precedes it.
pub open spec fn walk(archive: Seq<u8>) -> Walked
    decreases archive.len(),
{
    if archive.len() == 0 {
        Walked { entries: Seq::empty(), end: Ok(()) }
    } else {
        match last_entry(archive) {
            Err(e) => Walked { entries: Seq::empty(), end: Err(e) },
            Ok(entry) => {
                proof {
                    lemma_last_entry(archive);
                }
                let before = walk(archive.take(entry.offset as int));
                Walked { entries: seq![entry] + before.entries, end: before.end }
            },
        }
    }
}

/// The matching parenthesis lies inside the bytes searched.
pub proof fn lemma_opening(s: Seq<u8>, depth: nat)
    ensures
        opening(s, depth) matches Ok(open) ==> open < s.len() && s[open as int] == OPEN,
    decreases s.len(),
{
    if s.len() > 0 {
        let t = s.drop_last();
        if s.last() == CLOSE {
            lemma_opening(t, depth + 1);
        } else if s.last() == OPEN {
            if depth > 1 {
                lemma_opening(t, (depth - 1) as nat);
            }
        } else {
            lemma_opening(t, depth);
        }
    }
}

/// The data of an entry and its trailer lie inside the archive.
pub proof fn lemma_last_entry(archive: Seq<u8>)
    requires
        archive.len() > 0,
    ensures
        last_entry(archive) matches Ok(entry) ==> entry.offset + entry.meta.size < archive.len(),
{
    lemma_opening(archive.drop_last(), 1);
}

/// Finds the `(` that matches a `)` which follows the first `left` bytes.
fn find_opening(archive: &[u8], left: usize) -> (open: Result<usize, Malformed<Vec<u8>>>)
    requires
        left <= archive@.len(),
    ensures
        match (open, opening(archive@.take(left as int), 1)) {
            (Ok(open), Ok(expected)) => open == expected && open < left,
            (Err(e), Err(expected)) => e@ == expected,
            _ => false,
        },
{
    let mut i: usize = left;
    let mut parenthesis_depth: u32 = 1;
    proof {
        lemma_opening(archive@.take(left as int), 1);
    }
    while i > 0
        invariant
            i <= left <= archive@.len(),
            parenthesis_depth >= 1,
            opening(archive@.take(left as int), 1) == opening(
                archive@.take(i as int),
                parenthesis_depth as nat,
            ),
        decreases i,
    {
        let ghost s = archive@.take(i as int);
        let c: u8 = archive[i - 1];
        assert(s.last() == c);
        assert(s.drop_last() =~= archive@.take(i - 1));
        if c == CLOSE {
            if parenthesis_depth == u32::MAX {
                return Err(Malformed::TooDeep);
            }
            parenthesis_depth += 1;
        } else if c == OPEN {
            parenthesis_depth -= 1;
            if parenthesis_depth == 0 {
                return Ok(i - 1);
            }
        }
        i -= 1;
    }
    Err(Malformed::NoOpeningParenthesis)
}

/// Reads the last entry of the first `left` bytes of `archive`. Its offset is
/// how much of the archive is left before it.
pub fn read_last_entry(archive: &[u8], left: usize) -> (entry: Result<
    ArchiveEntry,
    Malformed<Vec<u8>>,
>)
    requires
        0 < left <= archive@.len(),
    ensures
        match (entry, last_entry(archive@.take(left as int))) {
            (Ok(entry), Ok(expected)) => entry@ == expected && entry.offset + entry.meta.size
                < left,
            (Err(e), Err(expected)) => e@ == expected,
            _ => false,
        },
{
    let ghost all = archive@.take(left as int);
    assert(all.last() == archive@[left - 1]);
    if archive[left - 1] != CLOSE {
        return Err(Malformed::NoClosingParenthesis);
    }
    assert(all.drop_last() =~= archive@.take(left - 1));
    let open: usize = match find_opening(archive, left - 1) {
        Ok(open) => open,
        Err(e) => {
            return Err(e);
        },
    };
    let dict: &[u8] = &archive[open + 1..left - 1];
    assert(dict@ =~= all.subrange(open + 1, left - 1));
    let meta: ArchiveEntryMeta = match ArchiveEntryMeta::try_parse(dict) {
        Ok(meta) => meta,
        Err(e) => {
            return Err(e);
        },
    };
    if meta.size > open as u64 {
        return Err(Malformed::SizeTooLarge);
    }
    let offset: u64 = open as u64 - meta.size;
    Ok(ArchiveEntry { meta, offset })
}

/// The values in a list of entries are those of each of them.
proof fn lemma_entries_view(entries: Seq<ArchiveEntry>)
    ensures
        entries_view(entries).len() == entries.len(),
        forall|i: int|
            0 <= i < entries.len() ==> entries_view(entries)[i] == (#[trigger] entries[i])@,
{
}

/// Walks through all entries of the archive.
pub fn walk_through_archive(archive: &[u8]) -> (found: Walk)
    ensures
        found@ == walk(archive@),
        found.entries@.len() == walk(archive@).entries.len(),
        forall|i: int|
            0 <= i < found.entries@.len() ==> {
                let entry = #[trigger] found.entries@[i];
                let expected = walk(archive@).entries[i];
                &&& entry.offset == expected.offset
                &&& entry.meta.entry_type@ == expected.meta.entry_type
                &&& entry.meta.size == expected.meta.size
                &&& entry.meta.mode == expected.meta.mode
                &&& entry.meta.name@ == expected.meta.name
                &&& entry.meta.filter@ == expected.meta.filter
                &&& entry.meta.crc == expected.meta.crc
                &&& entry.meta.target@ == expected.meta.target
            },
        found.end is Ok <==> walk(archive@).end is Ok,
        found.end matches Err(e) ==> walk(archive@).end == Err::<(), Malformed<Seq<u8>>>(e@),
        forall|i: int|
            0 <= i < found.entries@.len() ==> (#[trigger] found.entries@[i]).offset
                + found.entries@[i].meta.size < archive@.len(),
{
    let mut entries: Vec<ArchiveEntry> = Vec::new();
    let mut archive_size_left: usize = archive.len();
    assert(archive@.take(archive@.len() as int) =~= archive@);
    assert(entries_view(entries@) + walk(archive@).entries =~= walk(archive@).entries);
    while archive_size_left > 0
        invariant
            archive_size_left <= archive@.len(),
            walk(archive@).entries == entries_view(entries@) + walk(
                archive@.take(archive_size_left as int),
            ).entries,
            walk(archive@).end == walk(archive@.take(archive_size_left as int)).end,
            forall|i: int|
                0 <= i < entries@.len() ==> (#[trigger] entries@[i]).offset + entries@[i].meta.size
                    < archive@.len(),
        decreases archive_size_left,
    {
        let ghost here = archive@.take(archive_size_left as int);
        match read_last_entry(archive, archive_size_left) {
            Ok(entry) => {
                let ghost before = entries_view(entries@);
                let offset: usize = entry.offset as usize;
                assert(here.take(offset as int) =~= archive@.take(offset as int));
                entries.push(entry);
                assert(entries_view(entries@) =~= before.push(entry@));
                assert(before + (seq![entry@] + walk(here.take(offset as int)).entries)
                    =~= before.push(entry@) + walk(here.take(offset as int)).entries);
                archive_size_left = offset;
            },
            Err(e) => {
                assert(entries_view(entries@) + Seq::<Entry>::empty() =~= entries_view(entries@));
                proof {
                    lemma_entries_view(entries@);
                }
                return Walk { entries, end: Err(e) };
            },
        }
    }
    assert(entries_view(entries@) + Seq::<Entry>::empty() =~= entries_view(entries@));
    proof {
        lemma_entries_view(entries@);
    }
    Walk { entries, end: Ok(()) }
}

} // verus!
