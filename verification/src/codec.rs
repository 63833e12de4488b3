//! Compression filters and checksums.
use flate2::{Compression, CrcReader, CrcWriter};
use vstd::prelude::*;
use vstd::utf8::*;

use crate::bytes::{push_bytes, same_bytes};
use crate::words::lemma_filters_differ;

verus! {

/// An error of a compression library.
#[verifier::external_type_specification]
#[verifier::external_body]
pub struct ExIoError(std::io::Error);

/// How the data of an entry is compressed.
#[derive(Debug, Clone, Copy, PartialEq, Eq, Structural)]
pub enum Filter {
    /// Not at all.
    Plain,
    /// Zstandard.
    Zstd,
    /// Raw DEFLATE.
    Flate,
    /// LZMA, in the `.xz` format.
    Lzma,
    /// LZ4, in the frame format.
    Lz4,
}

/// The filter with the given name.
pub open spec fn filter_named(name: Seq<u8>) -> Option<Filter> {
    if name == encode_utf8("none"@) {
        Some(Filter::Plain)
    } else if name == encode_utf8("zstd"@) {
        Some(Filter::Zstd)
    } else if name == encode_utf8("flate"@) {
        Some(Filter::Flate)
    } else if name == encode_utf8("lzma"@) {
        Some(Filter::Lzma)
    } else if name == encode_utf8("lz4"@) {
        Some(Filter::Lz4)
    } else {
        None
    }
}

/// The CRC-32 of `data`.
pub uninterp spec fn crc32_of(data: Seq<u8>) -> u32;

/// Whether the Zstandard encoder may make `encoded` of `data` at `level`, or
/// may fail on them where it is `None`. The encoder is free in its choice of
/// bytes, and fails where it gets no memory, so this relates its answer to what
/// it was given and does not compute it.
pub uninterp spec fn zstd_stream(data: Seq<u8>, level: int, encoded: Option<Seq<u8>>) -> bool;

/// Whether `encoded` is a stream that the DEFLATE encoder may make of `data`
/// at `level`.
pub uninterp spec fn flate_stream(data: Seq<u8>, level: int, encoded: Seq<u8>) -> bool;

/// Whether the `.xz` encoder may make `encoded` of `data` at `level`, or may
/// fail on them where it is `None`.
pub uninterp spec fn lzma_stream(data: Seq<u8>, level: int, encoded: Option<Seq<u8>>) -> bool;

/// Whether `encoded` is a stream that the LZ4 frame encoder may make of `data`.
pub uninterp spec fn lz4_stream(data: Seq<u8>, encoded: Seq<u8>) -> bool;

/// What the Zstandard decoder makes of `payload`; `None` where it fails.
pub uninterp spec fn zstd_decoded(payload: Seq<u8>) -> Option<Seq<u8>>;

/// What the DEFLATE decoder makes of `payload`; `None` where it fails.
pub uninterp spec fn flate_decoded(payload: Seq<u8>) -> Option<Seq<u8>>;

/// What the `.xz` decoder makes of `payload`; `None` where it fails.
pub uninterp spec fn lzma_decoded(payload: Seq<u8>) -> Option<Seq<u8>>;

/// What the LZ4 frame decoder makes of `payload`; `None` where it fails.
pub uninterp spec fn lz4_decoded(payload: Seq<u8>) -> Option<Seq<u8>>;

/// What `payload` holds once `filter` is undone; `None` where it is damaged.
pub open spec fn decoded(filter: Filter, payload: Seq<u8>) -> Option<Seq<u8>> {
    match filter {
        Filter::Plain => Some(payload),
        Filter::Zstd => zstd_decoded(payload),
        Filter::Flate => flate_decoded(payload),
        Filter::Lzma => lzma_decoded(payload),
        Filter::Lz4 => lz4_decoded(payload),
    }
}

/// Whether `payload` is `data` as `filter` compresses it at `level`. It always
/// decodes to `data` again.
pub open spec fn encodes(filter: Filter, level: int, data: Seq<u8>, payload: Seq<u8>) -> bool {
    &&& decoded(filter, payload) == Some(data)
    &&& match filter {
        Filter::Plain => true,
        Filter::Zstd => zstd_stream(data, level, Some(payload)),
        Filter::Flate => flate_stream(data, level, payload),
        Filter::Lzma => lzma_stream(data, level, Some(payload)),
        Filter::Lz4 => lz4_stream(data, payload),
    }
}

/// Whether `filter` has the compression level `level`. Zstandard takes the
/// nearest that it has; plain data and LZ4 have no levels.
pub open spec fn has_level(filter: Filter, level: int) -> bool {
    match filter {
        Filter::Flate => level <= 10,
        Filter::Lzma => level <= 9,
        _ => true,
    }
}

/// Whether `filter` may fail to compress `data` at `level`.
pub open spec fn may_fail(filter: Filter, level: int, data: Seq<u8>) -> bool {
    match filter {
        Filter::Zstd => zstd_stream(data, level, None),
        Filter::Lzma => lzma_stream(data, level, None),
        _ => false,
    }
}

/// Updates a new `flate2::Crc` with `data` and asks it for the sum. Trusted to
/// give the same number for the same bytes.
#[verifier::external_body]
pub(crate) fn crc32(data: &[u8]) -> (sum: u32)
    ensures
        sum == crc32_of(data@),
{
    let mut crc = flate2::Crc::new();
    crc.update(data);
    crc.sum()
}

/// Feeds `data` to a `zstd::stream::write::Encoder` of the given level over a
/// vector, and finishes it. (`flate2::CrcReader` only serves to hand the bytes
/// over in the pieces in which they come from a file.) Trusted to make a stream
/// that [`zstd_decode`] turns into `data` again. That it makes one is left open:
/// the library allocates while it compresses, and gives an error where it gets
/// no memory.
#[verifier::external_body]
fn zstd_encode(data: &[u8], level: u8) -> (encoded: Result<Vec<u8>, std::io::Error>)
    ensures
        match encoded {
            Ok(e) => zstd_stream(data@, level as int, Some(e@)) && zstd_decoded(e@) == Some(data@),
            Err(_) => zstd_stream(data@, level as int, None),
        },
{
    let mut zstd = zstd::stream::write::Encoder::new(Vec::new(), level as i32)?;
    std::io::copy(&mut CrcReader::new(data), &mut zstd)?;
    zstd.finish()
}

/// Feeds `data` to a `flate2::write::DeflateEncoder` of the given level over a
/// vector, and finishes it. The encoder knows levels up to 10 and may panic at
/// others. Trusted to make, of any data, a stream that [`flate_decode`] turns
/// into `data` again: its errors are those of the writer, and a vector has none,
/// or come of its misuse.
#[verifier::external_body]
fn flate_encode(data: &[u8], level: u8) -> (encoded: Result<Vec<u8>, std::io::Error>)
    requires
        level <= 10,
    ensures
        encoded is Ok,
        encoded matches Ok(e) ==> flate_stream(data@, level as int, e@) && flate_decoded(e@)
            == Some(data@),
{
    let level = Compression::new(level as u32);
    let mut flate = flate2::write::DeflateEncoder::new(Vec::new(), level);
    std::io::copy(&mut CrcReader::new(data), &mut flate)?;
    flate.finish()
}

/// Feeds `data` to an `xz2::write::XzEncoder` of the given level over a vector,
/// and finishes it. The encoder knows levels up to 9 and panics at others.
/// Trusted to make a stream that [`lzma_decode`] turns into `data` again. That
/// it makes one is left open: the library allocates while it compresses, and
/// gives an error where it gets no memory.
#[verifier::external_body]
fn lzma_encode(data: &[u8], level: u8) -> (encoded: Result<Vec<u8>, std::io::Error>)
    requires
        level <= 9,
    ensures
        match encoded {
            Ok(e) => lzma_stream(data@, level as int, Some(e@)) && lzma_decoded(e@) == Some(data@),
            Err(_) => lzma_stream(data@, level as int, None),
        },
{
    let mut lzma = xz2::write::XzEncoder::new(Vec::new(), level as u32);
    std::io::copy(&mut CrcReader::new(data), &mut lzma)?;
    lzma.finish()
}

/// Feeds `data` to a `lz4_flex::frame::FrameEncoder` over a vector, and
/// finishes it. Trusted to make, of any data, a stream that [`lz4_decode`] turns
/// into `data` again: its errors are those of the writer, and a vector has none,
/// or speak of a content size, and none is set.
#[verifier::external_body]
fn lz4_encode(data: &[u8]) -> (encoded: Result<Vec<u8>, std::io::Error>)
    ensures
        encoded is Ok,
        encoded matches Ok(e) ==> lz4_stream(data@, e@) && lz4_decoded(e@) == Some(data@),
{
    let mut lz4 = lz4_flex::frame::FrameEncoder::new(Vec::new());
    std::io::copy(&mut CrcReader::new(data), &mut lz4)?;
    Ok(lz4.finish()?)
}

/// Copies what a `zstd::stream::read::Decoder` over `payload` reads to the end
/// of `out`. (`flate2::CrcWriter` only serves to take the data in the pieces in
/// which it goes into a file.) Trusted to give the same for the same payload,
/// given the memory that it asks for, and to leave in `out` what was there
/// before. How much of a damaged payload has been added to `out` before the
/// error is left open.
#[verifier::external_body]
fn zstd_decode(payload: &[u8], out: &mut Vec<u8>) -> (done: Result<(), std::io::Error>)
    ensures
        done is Ok <==> zstd_decoded(payload@) is Some,
        zstd_decoded(payload@) matches Some(data) ==> final(out)@ == old(out)@ + data,
        old(out)@.is_prefix_of(final(out)@),
{
    let mut zstd = zstd::stream::read::Decoder::new(payload)?;
    std::io::copy(&mut zstd, &mut CrcWriter::new(out))?;
    Ok(())
}

/// Copies what a `flate2::read::DeflateDecoder` over `payload` reads to the end
/// of `out`. Trusted as [`zstd_decode`] is.
#[verifier::external_body]
fn flate_decode(payload: &[u8], out: &mut Vec<u8>) -> (done: Result<(), std::io::Error>)
    ensures
        done is Ok <==> flate_decoded(payload@) is Some,
        flate_decoded(payload@) matches Some(data) ==> final(out)@ == old(out)@ + data,
        old(out)@.is_prefix_of(final(out)@),
{
    let mut flate = flate2::read::DeflateDecoder::new(payload);
    std::io::copy(&mut flate, &mut CrcWriter::new(out))?;
    Ok(())
}

/// Copies what an `xz2::read::XzDecoder` over `payload` reads to the end of
/// `out`. Trusted as [`zstd_decode`] is.
#[verifier::external_body]
fn lzma_decode(payload: &[u8], out: &mut Vec<u8>) -> (done: Result<(), std::io::Error>)
    ensures
        done is Ok <==> lzma_decoded(payload@) is Some,
        lzma_decoded(payload@) matches Some(data) ==> final(out)@ == old(out)@ + data,
        old(out)@.is_prefix_of(final(out)@),
{
    let mut lzma = xz2::read::XzDecoder::new(payload);
    std::io::copy(&mut lzma, &mut CrcWriter::new(out))?;
    Ok(())
}

/// Copies what a `lz4_flex::frame::FrameDecoder` over `payload` reads to the
/// end of `out`. Trusted as [`zstd_decode`] is.
#[verifier::external_body]
fn lz4_decode(payload: &[u8], out: &mut Vec<u8>) -> (done: Result<(), std::io::Error>)
    ensures
        done is Ok <==> lz4_decoded(payload@) is Some,
        lz4_decoded(payload@) matches Some(data) ==> final(out)@ == old(out)@ + data,
        old(out)@.is_prefix_of(final(out)@),
{
    let mut lz4 = lz4_flex::frame::FrameDecoder::new(payload);
    std::io::copy(&mut lz4, &mut CrcWriter::new(out))?;
    Ok(())
}

impl Filter {
    /// The filter with the given name, if there is one.
    pub fn from_name(name: &[u8]) -> (filter: Option<Filter>)
        ensures
            filter == filter_named(name@),
            filter == Some(Filter::Plain) <==> name@ == encode_utf8("none"@),
            filter == Some(Filter::Zstd) <==> name@ == encode_utf8("zstd"@),
            filter == Some(Filter::Flate) <==> name@ == encode_utf8("flate"@),
            filter == Some(Filter::Lzma) <==> name@ == encode_utf8("lzma"@),
            filter == Some(Filter::Lz4) <==> name@ == encode_utf8("lz4"@),
    {
        proof {
            lemma_filters_differ();
        }
        if same_bytes(name, "none".as_bytes()) {
            Some(Filter::Plain)
        } else if same_bytes(name, "zstd".as_bytes()) {
            Some(Filter::Zstd)
        } else if same_bytes(name, "flate".as_bytes()) {
            Some(Filter::Flate)
        } else if same_bytes(name, "lzma".as_bytes()) {
            Some(Filter::Lzma)
        } else if same_bytes(name, "lz4".as_bytes()) {
            Some(Filter::Lz4)
        } else {
            None
        }
    }

    /// Compresses `data`. This fails only where the Zstandard or the LZMA
    /// library does.
    pub fn encode(self, data: &[u8], level: u8) -> (payload: Result<Vec<u8>, std::io::Error>)
        requires
            has_level(self, level as int),
        ensures
            match payload {
                Ok(p) => encodes(self, level as int, data@, p@),
                Err(_) => may_fail(self, level as int, data@),
            },
            self == Filter::Plain || self == Filter::Flate || self == Filter::Lz4 ==> payload is Ok,
            payload matches Ok(p) ==> match self {
                Filter::Plain => p@ == data@,
                Filter::Zstd => zstd_stream(data@, level as int, Some(p@)) && zstd_decoded(p@)
                    == Some(data@),
                Filter::Flate => flate_stream(data@, level as int, p@) && flate_decoded(p@) == Some(
                    data@,
                ),
                Filter::Lzma => lzma_stream(data@, level as int, Some(p@)) && lzma_decoded(p@)
                    == Some(data@),
                Filter::Lz4 => lz4_stream(data@, p@) && lz4_decoded(p@) == Some(data@),
            },
            payload is Err ==> {
                ||| self == Filter::Zstd && zstd_stream(data@, level as int, None)
                ||| self == Filter::Lzma && lzma_stream(data@, level as int, None)
            },
    {
        match self {
            Filter::Plain => {
                let mut copy: Vec<u8> = Vec::new();
                push_bytes(&mut copy, data);
                assert(copy@ =~= data@);
                Ok(copy)
            },
            Filter::Zstd => zstd_encode(data, level),
            Filter::Flate => flate_encode(data, level),
            Filter::Lzma => lzma_encode(data, level),
            Filter::Lz4 => lz4_encode(data),
        }
    }

    /// Appends the decompressed `payload` to `out`. Where the payload is
    /// damaged, what could be read of it has been appended.
    pub fn decode(self, payload: &[u8], out: &mut Vec<u8>) -> (done: Result<(), std::io::Error>)
        ensures
            done is Ok <==> decoded(self, payload@) is Some,
            decoded(self, payload@) matches Some(data) ==> final(out)@ == old(out)@ + data,
            old(out)@.is_prefix_of(final(out)@),
            ({
                let data = match self {
                    Filter::Plain => Some(payload@),
                    Filter::Zstd => zstd_decoded(payload@),
                    Filter::Flate => flate_decoded(payload@),
                    Filter::Lzma => lzma_decoded(payload@),
                    Filter::Lz4 => lz4_decoded(payload@),
                };
                &&& done is Ok <==> data is Some
                &&& data is Some ==> final(out)@ == old(out)@ + data->0
            }),
    {
        match self {
            Filter::Plain => {
                push_bytes(out, payload);
                Ok(())
            },
            Filter::Zstd => zstd_decode(payload, out),
            Filter::Flate => flate_decode(payload, out),
            Filter::Lzma => lzma_decode(payload, out),
            Filter::Lz4 => lz4_decode(payload, out),
        }
    }
}

} // verus!
