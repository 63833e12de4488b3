//! What holds of the entries that adding files to an archive makes.
use vstd::prelude::*;
use vstd::utf8::*;

use crate::balance::is_balanced;
use crate::codec::{
    crc32_of,
    encodes,
    filter_named,
    flate_decoded,
    flate_stream,
    has_level,
    lz4_decoded,
    lz4_stream,
    lzma_decoded,
    lzma_stream,
    zstd_decoded,
    zstd_stream,
    Filter,
};
use crate::laws::{law_file_reads_back, law_symlink_reads_back};
use crate::number::digits;
use crate::pack::{file_entry_bytes, is_compressed_file};
use crate::text::{debug_text, shows};
use crate::walk::walk;
use crate::words::lemma_filters_differ;

verus! {

/// The filters are known by five names, and there are no others.
pub proof fn law_filters_have_their_names(name: Seq<u8>)
    ensures
        filter_named(name) == Some(Filter::Plain) <==> name == encode_utf8("none"@),
        filter_named(name) == Some(Filter::Zstd) <==> name == encode_utf8("zstd"@),
        filter_named(name) == Some(Filter::Flate) <==> name == encode_utf8("flate"@),
        filter_named(name) == Some(Filter::Lzma) <==> name == encode_utf8("lzma"@),
        filter_named(name) == Some(Filter::Lz4) <==> name == encode_utf8("lz4"@),
{
    lemma_filters_differ();
}

/// Every filter can be asked for each level from 0 to 9.
pub proof fn law_all_filters_have_the_usual_levels(filter: Filter, level: int)
    requires
        0 <= level <= 9,
    ensures
        has_level(filter, level),
{
}

/// A file that is added under a filter is found as one entry of that filter,
/// whose data is what this very filter's encoder made of the file at the level
/// asked for, and nothing else. The entry has the file's name, its mode and its
/// checksum.
pub proof fn law_added_file_is_compressed_as_asked(
    entry: Seq<u8>,
    data: Seq<u8>,
    name: Seq<char>,
    filter_name: Seq<char>,
    filter: Filter,
    level: int,
    mode: nat,
)
    requires
        entry.len() <= u64::MAX,
        is_balanced(encode_utf8(name)),
        filter_named(encode_utf8(filter_name)) == Some(filter),
        mode <= u32::MAX,
    ensures
        is_compressed_file(entry, data, name, filter_name, filter, level, mode) ==> {
            let found = walk(entry).entries[0];
            let payload = entry.take(found.meta.size as int);
            &&& walk(entry).end is Ok
            &&& walk(entry).entries.len() == 1
            &&& found.offset == 0
            &&& found.meta.entry_type == encode_utf8("file"@)
            &&& found.meta.name == encode_utf8(name)
            &&& found.meta.mode == mode
            &&& found.meta.filter == encode_utf8(filter_name)
            &&& found.meta.crc == crc32_of(data)
            &&& found.meta.target.len() == 0
            &&& filter_name == "none"@ ==> payload == data
            &&& filter_name == "zstd"@ ==> zstd_stream(data, level, Some(payload)) && zstd_decoded(
                payload,
            ) == Some(data)
            &&& filter_name == "flate"@ ==> flate_stream(data, level, payload) && flate_decoded(
                payload,
            ) == Some(data)
            &&& filter_name == "lzma"@ ==> lzma_stream(data, level, Some(payload)) && lzma_decoded(
                payload,
            ) == Some(data)
            &&& filter_name == "lz4"@ ==> lz4_stream(data, payload) && lz4_decoded(payload) == Some(
                data,
            )
        },
{
    lemma_filters_differ();
    if is_compressed_file(entry, data, name, filter_name, filter, level, mode) {
        let payload = choose|payload: Seq<u8>|
            {
                &&& #[trigger] encodes(filter, level, data, payload)
                &&& entry == file_entry_bytes(
                    payload,
                    debug_text(name),
                    mode,
                    filter_name,
                    crc32_of(data) as nat,
                )
            };
        assert(payload.len() <= entry.len());
        law_file_reads_back(
            payload,
            debug_text(name),
            name,
            mode,
            filter_name,
            crc32_of(data) as nat,
        );
        assert(entry.take(payload.len() as int) =~= payload);
    }
}

/// A written file is found as one entry with all that was written of it,
/// whatever its data holds.
pub proof fn law_written_file_is_found(
    payload: Seq<u8>,
    shown_name: Seq<char>,
    name: Seq<char>,
    mode: nat,
    filter: Seq<char>,
    crc: nat,
)
    requires
        payload.len() <= u64::MAX,
        shows(shown_name, name),
        is_balanced(encode_utf8(name)),
        mode <= u32::MAX,
        filter_named(encode_utf8(filter)) is Some,
        crc <= u32::MAX,
    ensures
        ({
            let found = walk(
                payload + (encode_utf8("(size="@) + digits(payload.len(), 10) + encode_utf8(
                    " name="@,
                ) + encode_utf8(shown_name) + encode_utf8(" mode="@) + digits(mode, 8)
                    + encode_utf8(" filter=\""@) + encode_utf8(filter) + encode_utf8("\" crc="@)
                    + digits(crc, 10) + encode_utf8(")"@)),
            );
            let meta = found.entries[0].meta;
            &&& found.end is Ok
            &&& found.entries.len() == 1
            &&& found.entries[0].offset == 0
            &&& meta.entry_type == encode_utf8("file"@)
            &&& meta.size == payload.len()
            &&& meta.name == encode_utf8(name)
            &&& meta.mode == mode
            &&& meta.filter == encode_utf8(filter)
            &&& meta.crc == crc
            &&& meta.target.len() == 0
        }),
{
    law_file_reads_back(payload, shown_name, name, mode, filter, crc);
}

/// A written symlink is found as one entry with all that was written of it.
pub proof fn law_written_symlink_is_found(
    shown_name: Seq<char>,
    name: Seq<char>,
    shown_target: Seq<char>,
    target: Seq<char>,
    mode: nat,
)
    requires
        shows(shown_name, name),
        is_balanced(encode_utf8(name)),
        shows(shown_target, target),
        is_balanced(encode_utf8(target)),
        mode <= u32::MAX,
    ensures
        ({
            let found = walk(
                encode_utf8("(name="@) + encode_utf8(shown_name) + encode_utf8(
                    " type=\"symlink\" target="@,
                ) + encode_utf8(shown_target) + encode_utf8(" mode="@) + digits(mode, 8)
                    + encode_utf8(")"@),
            );
            let meta = found.entries[0].meta;
            &&& found.end is Ok
            &&& found.entries.len() == 1
            &&& found.entries[0].offset == 0
            &&& meta.entry_type == encode_utf8("symlink"@)
            &&& meta.size == 0
            &&& meta.name == encode_utf8(name)
            &&& meta.mode == mode
            &&& meta.filter == encode_utf8("none"@)
            &&& meta.crc == 0
            &&& meta.target == encode_utf8(target)
        }),
{
    law_symlink_reads_back(shown_name, name, shown_target, target, mode);
}

} // verus!
