//! Making the entries of an archive.
use vstd::prelude::*;
use vstd::utf8::*;

use crate::bytes::push_text;
use crate::codec::{
    crc32,
    crc32_of,
    encodes,
    filter_named,
    flate_decoded,
    flate_stream,
    has_level,
    lz4_decoded,
    lz4_stream,
    lzma_decoded,
    lzma_stream,
    may_fail,
    zstd_decoded,
    zstd_stream,
    Filter,
};
use crate::number::{digits, push_number};
use crate::stream::CountingWriter;
use crate::text::{debug_string, debug_text, escaped, is_plain, quoted, shows};
use crate::words::lemma_filters_differ;

verus! {

/// Why a file cannot be added to an archive.
#[derive(Debug)]
pub enum CompressError {
    /// There is no filter of this name.
    UnknownFilter(String),
    /// The compression library failed.
    Codec(std::io::Error),
}

/// The trailer of a file: the size of its data in the archive, its name as the
/// `Debug` format shows it, its mode, its filter and its checksum.
pub open spec fn file_trailer_text(
    size: nat,
    shown_name: Seq<char>,
    mode: nat,
    filter: Seq<char>,
    crc: nat,
) -> Seq<u8> {
    encode_utf8("(size="@) + digits(size, 10) + encode_utf8(" name="@) + encode_utf8(shown_name)
        + encode_utf8(" mode="@) + digits(mode, 8) + encode_utf8(" filter=\""@) + encode_utf8(
        filter,
    ) + encode_utf8("\" crc="@) + digits(crc, 10) + encode_utf8(")"@)
}

/// The trailer of a symlink: its name and its target as the `Debug` format
/// shows them, and its mode.
pub open spec fn symlink_trailer_text(
    shown_name: Seq<char>,
    shown_target: Seq<char>,
    mode: nat,
) -> Seq<u8> {
    encode_utf8("(name="@) + encode_utf8(shown_name) + encode_utf8(
        " type=\"symlink\" target="@,
    ) + encode_utf8(shown_target) + encode_utf8(" mode="@) + digits(mode, 8) + encode_utf8(")"@)
}

/// A file in an archive: its data and its trailer.
pub open spec fn file_entry_bytes(
    payload: Seq<u8>,
    shown_name: Seq<char>,
    mode: nat,
    filter: Seq<char>,
    crc: nat,
) -> Seq<u8> {
    payload + file_trailer_text(payload.len(), shown_name, mode, filter, crc)
}

/// Writes the trailer of a file.
pub fn file_trailer(size: u64, shown_name: &str, mode: u32, filter: &str, crc: u32) -> (trailer:
    Vec<u8>)
    ensures
        trailer@ == file_trailer_text(
            size as nat,
            shown_name@,
            mode as nat,
            filter@,
            crc as nat,
        ),
        trailer@ == encode_utf8("(size="@)
            + digits(size as nat, 10)
            + encode_utf8(" name="@)
            + encode_utf8(shown_name@)
            + encode_utf8(" mode="@)
            + digits(mode as nat, 8)
            + encode_utf8(" filter=\""@)
            + encode_utf8(filter@)
            + encode_utf8("\" crc="@)
            + digits(crc as nat, 10)
            + encode_utf8(")"@),
{
    let mut out: Vec<u8> = Vec::new();
    push_text(&mut out, "(size=");
    push_number(&mut out, size, 10);
    push_text(&mut out, " name=");
    push_text(&mut out, shown_name);
    push_text(&mut out, " mode=");
    push_number(&mut out, mode as u64, 8);
    push_text(&mut out, " filter=\"");
    push_text(&mut out, filter);
    push_text(&mut out, "\" crc=");
    push_number(&mut out, crc as u64, 10);
    push_text(&mut out, ")");
    assert(Seq::<u8>::empty() + encode_utf8("(size="@) =~= encode_utf8("(size="@));
    out
}

/// Writes a file into an archive, given its data as the filter compressed it
/// and the name as the `Debug` format shows it.
pub fn file_entry(payload: &[u8], shown_name: &str, mode: u32, filter: &str, crc: u32) -> (entry:
    Vec<u8>)
    ensures
        entry@ == file_entry_bytes(payload@, shown_name@, mode as nat, filter@, crc as nat),
        entry@ == payload@ + (encode_utf8("(size="@)
            + digits(payload@.len(), 10)
            + encode_utf8(" name="@)
            + encode_utf8(shown_name@)
            + encode_utf8(" mode="@)
            + digits(mode as nat, 8)
            + encode_utf8(" filter=\""@)
            + encode_utf8(filter@)
            + encode_utf8("\" crc="@)
            + digits(crc as nat, 10)
            + encode_utf8(")"@)),
{
    let mut archive: CountingWriter<Vec<u8>> = CountingWriter::new(Vec::new());
    archive.write_all(payload);
    let bytes_written: u64 = archive.bytes_written();
    let trailer = file_trailer(bytes_written, shown_name, mode, filter, crc);
    archive.write_all(trailer.as_slice());
    assert(Seq::<u8>::empty() + payload@ =~= payload@);
    archive.inner
}

/// Whether `entry` is the file `data` as [`compress`] writes it. Its name is
/// shown so that it can be read back.
pub open spec fn is_compressed_file(
    entry: Seq<u8>,
    data: Seq<u8>,
    output_name: Seq<char>,
    filter_name: Seq<char>,
    filter: Filter,
    level: int,
    mode: nat,
) -> bool {
    &&& shows(debug_text(output_name), output_name)
    &&& exists|payload: Seq<u8>|
        {
            &&& #[trigger] encodes(filter, level, data, payload)
            &&& entry == file_entry_bytes(
                payload,
                debug_text(output_name),
                mode,
                filter_name,
                crc32_of(data) as nat,
            )
        }
}

/// Makes the entry that adds a file to the end of an archive: its data,
/// compressed, and its trailer.
pub fn compress(data: &[u8], output_name: &str, filter: &str, level: u8, mode: u32) -> (entry:
    Result<Vec<u8>, CompressError>)
    requires
        filter_named(encode_utf8(filter@)) matches Some(f) ==> has_level(f, level as int),
    ensures
        match filter_named(encode_utf8(filter@)) {
            None => entry matches Err(CompressError::UnknownFilter(name)) && name@ == filter@,
            Some(f) => match entry {
                Ok(e) => is_compressed_file(
                    e@,
                    data@,
                    output_name@,
                    filter@,
                    f,
                    level as int,
                    mode as nat,
                ),
                Err(e) => e is Codec && may_fail(f, level as int, data@),
            },
        },
        filter_named(encode_utf8(filter@)) matches Some(f) ==> (f == Filter::Plain || f
            == Filter::Flate || f == Filter::Lz4 ==> entry is Ok),
        entry matches Ok(e) ==> exists|k: int|
            {
                let payload = #[trigger] e@.take(k);
                &&& 0 <= k <= e@.len()
                &&& e@.skip(k) == encode_utf8("(size="@)
                    + digits(k as nat, 10)
                    + encode_utf8(" name="@)
                    + encode_utf8(debug_text(output_name@))
                    + encode_utf8(" mode="@)
                    + digits(mode as nat, 8)
                    + encode_utf8(" filter=\""@)
                    + encode_utf8(filter@)
                    + encode_utf8("\" crc="@)
                    + digits(crc32_of(data@) as nat, 10)
                    + encode_utf8(")"@)
                &&& filter@ == "none"@ ==> payload == data@
                &&& filter@ == "zstd"@ ==> zstd_stream(data@, level as int, Some(payload))
                    && zstd_decoded(payload) == Some(data@)
                &&& filter@ == "flate"@ ==> flate_stream(data@, level as int, payload)
                    && flate_decoded(payload) == Some(data@)
                &&& filter@ == "lzma"@ ==> lzma_stream(data@, level as int, Some(payload))
                    && lzma_decoded(payload) == Some(data@)
                &&& filter@ == "lz4"@ ==> lz4_stream(data@, payload)
                    && lz4_decoded(payload) == Some(data@)
            },
        entry is Ok ==> shows(debug_text(output_name@), output_name@),
        filter@ == "none"@ || filter@ == "flate"@ || filter@ == "lz4"@ ==> entry is Ok,
        filter@ == "zstd"@ && entry is Err ==> zstd_stream(data@, level as int, None),
        filter@ == "lzma"@ && entry is Err ==> lzma_stream(data@, level as int, None),
        (entry matches Err(CompressError::UnknownFilter(name)) && name@ == filter@) <==> (filter@
            != "none"@ && filter@ != "zstd"@ && filter@ != "flate"@ && filter@ != "lzma"@ && filter@
            != "lz4"@),
        entry is Ok && is_plain(output_name@) ==> debug_text(output_name@) == quoted(
            escaped(output_name@),
        ),
{
    proof {
        lemma_filters_differ();
        encode_utf8_decode_utf8(filter@);
        encode_utf8_decode_utf8("none"@);
        encode_utf8_decode_utf8("zstd"@);
        encode_utf8_decode_utf8("flate"@);
        encode_utf8_decode_utf8("lzma"@);
        encode_utf8_decode_utf8("lz4"@);
    }
    let f: Filter = match Filter::from_name(filter.as_bytes()) {
        Some(f) => f,
        None => {
            return Err(CompressError::UnknownFilter(filter.to_owned()));
        },
    };
    let payload: Vec<u8> = match f.encode(data, level) {
        Ok(payload) => payload,
        Err(e) => {
            return Err(CompressError::Codec(e));
        },
    };
    let crc: u32 = crc32(data);
    let shown_name: String = debug_string(output_name);
    let entry = file_entry(payload.as_slice(), shown_name.as_str(), mode, filter, crc);
    assert(encodes(f, level as int, data@, payload@));
    assert(entry@.take(payload@.len() as int) =~= payload@);
    assert(entry@.skip(payload@.len() as int) =~= file_trailer_text(
        payload@.len(),
        shown_name@,
        mode as nat,
        filter@,
        crc as nat,
    ));
    Ok(entry)
}

/// Writes the trailer of a symlink, given the name and the target as the
/// `Debug` format shows them.
pub fn symlink_trailer(shown_name: &str, shown_target: &str, mode: u32) -> (trailer: Vec<u8>)
    ensures
        trailer@ == symlink_trailer_text(shown_name@, shown_target@, mode as nat),
        trailer@ == encode_utf8("(name="@) + encode_utf8(shown_name@) + encode_utf8(
            " type=\"symlink\" target="@,
        ) + encode_utf8(shown_target@) + encode_utf8(" mode="@) + digits(mode as nat, 8)
            + encode_utf8(")"@),
{
    let mut out: Vec<u8> = Vec::new();
    push_text(&mut out, "(name=");
    push_text(&mut out, shown_name);
    push_text(&mut out, " type=\"symlink\" target=");
    push_text(&mut out, shown_target);
    push_text(&mut out, " mode=");
    push_number(&mut out, mode as u64, 8);
    push_text(&mut out, ")");
    assert(Seq::<u8>::empty() + encode_utf8("(name="@) =~= encode_utf8("(name="@));
    out
}

/// Makes the entry that adds a symlink to the end of an archive. The target is
/// a path, which need not be UTF-8, so it comes as the `Debug` format shows it.
pub fn add_symlink(output_name: &str, shown_target: &str, mode: u32) -> (entry: Vec<u8>)
    ensures
        entry@ == symlink_trailer_text(debug_text(output_name@), shown_target@, mode as nat),
        entry@ == encode_utf8("(name="@) + encode_utf8(debug_text(output_name@)) + encode_utf8(
            " type=\"symlink\" target="@,
        ) + encode_utf8(shown_target@) + encode_utf8(" mode="@) + digits(mode as nat, 8)
            + encode_utf8(")"@),
        shows(debug_text(output_name@), output_name@),
        is_plain(output_name@) ==> debug_text(output_name@) == quoted(escaped(output_name@)),
{
    let shown_name: String = debug_string(output_name);
    symlink_trailer(shown_name.as_str(), shown_target, mode)
}

} // verus!
