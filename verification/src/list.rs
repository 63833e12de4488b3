//! Listing the entries of an archive.
use vstd::prelude::*;
use vstd::utf8::*;

use crate::bytes::push_text;
use crate::malformed::Malformed;
use crate::number::{digits, push_number};
use crate::text::{
    debug_string,
    debug_text,
    escaped,
    is_plain,
    lossy_string,
    lossy_text,
    quoted,
    shows,
};
use crate::walk::{end_view, walk, walk_through_archive, ArchiveEntry, Entry, Walk};

verus! {

/// The lines of a listing, in UTF-8 and without line ends, and how the walk
/// through the archive ended.
#[derive(Debug)]
pub struct Listing {
    pub lines: Vec<Vec<u8>>,
    pub end: Result<(), Malformed<Vec<u8>>>,
}

/// The line that shows all of an entry's metadata and where its data starts.
/// The type, the filter and the target come as the `Debug` format shows them.
pub open spec fn detailed_line_text(
    name: Seq<char>,
    shown_type: Seq<char>,
    size: nat,
    mode: nat,
    shown_filter: Seq<char>,
    crc: nat,
    shown_target: Seq<char>,
    offset: nat,
) -> Seq<u8> {
    encode_utf8(name) + encode_utf8(" (type="@) + encode_utf8(shown_type) + encode_utf8(" size="@)
        + digits(size, 10) + encode_utf8(" mode="@) + digits(mode, 8) + encode_utf8(" filter="@)
        + encode_utf8(shown_filter) + encode_utf8(" crc="@) + digits(crc, 10) + encode_utf8(
        " target="@,
    ) + encode_utf8(shown_target) + encode_utf8(") @ offset="@) + digits(offset, 10)
}

/// The line that shows an entry: its name, or everything.
pub open spec fn line_text(entry: Entry, verbose: bool) -> Seq<u8> {
    let name = lossy_text(entry.meta.name);
    if verbose {
        detailed_line_text(
            name,
            debug_text(lossy_text(entry.meta.entry_type)),
            entry.meta.size,
            entry.meta.mode,
            debug_text(lossy_text(entry.meta.filter)),
            entry.meta.crc,
            debug_text(lossy_text(entry.meta.target)),
            entry.offset,
        )
    } else {
        encode_utf8(name)
    }
}

/// Whether bytes that are UTF-8 are shown as the text that they encode.
pub open spec fn reads_as_text(bytes: Seq<u8>) -> bool {
    valid_utf8(bytes) ==> lossy_text(bytes) == decode_utf8(bytes)
}

/// Whether a text is shown character by character between quotes; printable
/// ASCII characters as they are, with a backslash before each quote and each
/// backslash.
pub open spec fn shows_as_text(text: Seq<char>) -> bool {
    &&& shows(debug_text(text), text)
    &&& is_plain(text) ==> debug_text(text) == quoted(escaped(text))
}

/// Whether the texts in the line that shows an entry are what they should be.
pub open spec fn is_shown_plainly(entry: Entry, verbose: bool) -> bool {
    &&& reads_as_text(entry.meta.name)
    &&& verbose ==> {
        &&& reads_as_text(entry.meta.entry_type)
        &&& reads_as_text(entry.meta.filter)
        &&& reads_as_text(entry.meta.target)
        &&& shows_as_text(lossy_text(entry.meta.entry_type))
        &&& shows_as_text(lossy_text(entry.meta.filter))
        &&& shows_as_text(lossy_text(entry.meta.target))
    }
}

/// The lines that show some entries, one for each.
pub open spec fn lines_text(entries: Seq<Entry>, verbose: bool) -> Seq<Seq<u8>> {
    Seq::new(entries.len(), |i: int| line_text(entries[i], verbose))
}

/// The bytes of each line in a list.
pub open spec fn lines_view(lines: Seq<Vec<u8>>) -> Seq<Seq<u8>> {
    Seq::new(lines.len(), |i: int| lines[i]@)
}

/// Writes the line that shows all of an entry's metadata, given its name and
/// the other texts as they are to be shown.
pub fn detailed_line(
    name: &str,
    shown_type: &str,
    size: u64,
    mode: u32,
    shown_filter: &str,
    crc: u32,
    shown_target: &str,
    offset: u64,
) -> (line: Vec<u8>)
    ensures
        line@ == detailed_line_text(
            name@,
            shown_type@,
            size as nat,
            mode as nat,
            shown_filter@,
            crc as nat,
            shown_target@,
            offset as nat,
        ),
        line@ == encode_utf8(name@)
            + encode_utf8(" (type="@)
            + encode_utf8(shown_type@)
            + encode_utf8(" size="@)
            + digits(size as nat, 10)
            + encode_utf8(" mode="@)
            + digits(mode as nat, 8)
            + encode_utf8(" filter="@)
            + encode_utf8(shown_filter@)
            + encode_utf8(" crc="@)
            + digits(crc as nat, 10)
            + encode_utf8(" target="@)
            + encode_utf8(shown_target@)
            + encode_utf8(") @ offset="@)
            + digits(offset as nat, 10),
{
    let mut out: Vec<u8> = Vec::new();
    push_text(&mut out, name);
    push_text(&mut out, " (type=");
    push_text(&mut out, shown_type);
    push_text(&mut out, " size=");
    push_number(&mut out, size, 10);
    push_text(&mut out, " mode=");
    push_number(&mut out, mode as u64, 8);
    push_text(&mut out, " filter=");
    push_text(&mut out, shown_filter);
    push_text(&mut out, " crc=");
    push_number(&mut out, crc as u64, 10);
    push_text(&mut out, " target=");
    push_text(&mut out, shown_target);
    push_text(&mut out, ") @ offset=");
    push_number(&mut out, offset, 10);
    assert(Seq::<u8>::empty() + encode_utf8(name@) =~= encode_utf8(name@));
    out
}

/// Writes the line that shows an entry.
pub fn entry_line(entry: &ArchiveEntry, verbose: bool) -> (line: Vec<u8>)
    ensures
        line@ == line_text(entry@, verbose),
        is_shown_plainly(entry@, verbose),
        !verbose ==> line@ == encode_utf8(lossy_text(entry.meta.name@)),
        !verbose && valid_utf8(entry.meta.name@) ==> line@ == entry.meta.name@,
        verbose ==> line@ == encode_utf8(lossy_text(entry.meta.name@))
            + encode_utf8(" (type="@)
            + encode_utf8(debug_text(lossy_text(entry.meta.entry_type@)))
            + encode_utf8(" size="@)
            + digits(entry.meta.size as nat, 10)
            + encode_utf8(" mode="@)
            + digits(entry.meta.mode as nat, 8)
            + encode_utf8(" filter="@)
            + encode_utf8(debug_text(lossy_text(entry.meta.filter@)))
            + encode_utf8(" crc="@)
            + digits(entry.meta.crc as nat, 10)
            + encode_utf8(" target="@)
            + encode_utf8(debug_text(lossy_text(entry.meta.target@)))
            + encode_utf8(") @ offset="@)
            + digits(entry.offset as nat, 10),
{
    proof {
        if valid_utf8(entry.meta.name@) {
            decode_utf8_encode_utf8(entry.meta.name@);
        }
    }
    let name: String = lossy_string(entry.meta.name.as_slice());
    if verbose {
        let entry_type: String = lossy_string(entry.meta.entry_type.as_slice());
        let filter: String = lossy_string(entry.meta.filter.as_slice());
        let target: String = lossy_string(entry.meta.target.as_slice());
        detailed_line(
            name.as_str(),
            debug_string(entry_type.as_str()).as_str(),
            entry.meta.size,
            entry.meta.mode,
            debug_string(filter.as_str()).as_str(),
            entry.meta.crc,
            debug_string(target.as_str()).as_str(),
            entry.offset,
        )
    } else {
        let mut line: Vec<u8> = Vec::new();
        push_text(&mut line, name.as_str());
        assert(Seq::<u8>::empty() + encode_utf8(name@) =~= encode_utf8(name@));
        line
    }
}

/// Lists the entries of an archive.
pub fn list(archive: &[u8], verbose: bool) -> (listing: Listing)
    ensures
        lines_view(listing.lines@) == lines_text(walk(archive@).entries, verbose),
        end_view(listing.end) == walk(archive@).end,
        listing.end is Ok <==> walk(archive@).end is Ok,
        listing.end matches Err(e) ==> walk(archive@).end == Err::<(), Malformed<Seq<u8>>>(e@),
        listing.lines@.len() == walk(archive@).entries.len(),
        !verbose ==> forall|i: int|
            0 <= i < listing.lines@.len() && valid_utf8(walk(archive@).entries[i].meta.name) ==> (
            #[trigger] listing.lines@[i])@ == walk(archive@).entries[i].meta.name,
        !verbose ==> forall|i: int|
            0 <= i < listing.lines@.len() ==> (#[trigger] listing.lines@[i])@ == encode_utf8(
                lossy_text(walk(archive@).entries[i].meta.name),
            ),
        verbose ==> forall|i: int|
            0 <= i < listing.lines@.len() ==> {
                let entry = walk(archive@).entries[i];
                (#[trigger] listing.lines@[i])@ == encode_utf8(lossy_text(entry.meta.name))
                    + encode_utf8(" (type="@)
                    + encode_utf8(debug_text(lossy_text(entry.meta.entry_type)))
                    + encode_utf8(" size="@)
                    + digits(entry.meta.size, 10)
                    + encode_utf8(" mode="@)
                    + digits(entry.meta.mode, 8)
                    + encode_utf8(" filter="@)
                    + encode_utf8(debug_text(lossy_text(entry.meta.filter)))
                    + encode_utf8(" crc="@)
                    + digits(entry.meta.crc, 10)
                    + encode_utf8(" target="@)
                    + encode_utf8(debug_text(lossy_text(entry.meta.target)))
                    + encode_utf8(") @ offset="@)
                    + digits(entry.offset, 10)
            },
        forall|i: int|
            0 <= i < walk(archive@).entries.len() ==> is_shown_plainly(
                #[trigger] walk(archive@).entries[i],
                verbose,
            ),
{
    let found: Walk = walk_through_archive(archive);
    let mut lines: Vec<Vec<u8>> = Vec::new();
    let mut i: usize = 0;
    while i < found.entries.len()
        invariant
            i <= found.entries@.len(),
            found@ == walk(archive@),
            lines@.len() == i,
            forall|j: int|
                0 <= j < i ==> (#[trigger] lines@[j])@ == line_text(found.entries@[j]@, verbose),
            forall|j: int|
                0 <= j < i ==> is_shown_plainly((#[trigger] found.entries@[j])@, verbose),
        decreases found.entries@.len() - i,
    {
        lines.push(entry_line(&found.entries[i], verbose));
        i += 1;
    }
    proof {
        let entries = walk(archive@).entries;
        assert(entries.len() == found.entries@.len());
        assert(lines_view(lines@) =~= lines_text(entries, verbose));
        assert forall|j: int| 0 <= j < entries.len() implies is_shown_plainly(
            #[trigger] entries[j],
            verbose,
        ) by {
            assert(entries[j] == found.entries@[j]@);
        }
        assert forall|j: int| 0 <= j < lines@.len() implies (#[trigger] lines@[j])@ == line_text(
            entries[j],
            verbose,
        ) && reads_as_text(entries[j].meta.name) by {
            assert(entries[j] == found.entries@[j]@);
            assert(is_shown_plainly(entries[j], verbose));
        }
        assert forall|j: int|
            0 <= j < lines@.len() && valid_utf8(entries[j].meta.name) && !verbose implies (
        #[trigger] lines@[j])@ == entries[j].meta.name by {
            assert(reads_as_text(entries[j].meta.name));
            decode_utf8_encode_utf8(entries[j].meta.name);
        }
    }
    Listing { lines, end: found.end }
}

} // verus!
