//! Reading and writing `ooo` archives.
//!
//! An archive is a plain sequence of entries. Each entry is the (possibly
//! compressed) data of a file followed by a trailer in readable text, such as
//! `(size=12 name="a.txt" mode=644 filter="zstd" crc=907060870)`. Entries are
//! found from the end of the archive backwards, so archives are combined by
//! writing one after the other.
pub mod adding_laws;
pub mod balance;
pub mod bytes;
pub mod codec;
pub mod dict;
pub mod dictionary_laws;
pub mod escapes;
pub mod extract;
pub mod extraction_laws;
pub mod fields;
pub mod finding_laws;
pub mod laws;
pub mod list;
pub mod listing_laws;
pub mod malformed;
pub mod meta;
pub mod names;
pub mod number;
pub mod outcome_laws;
pub mod pack;
pub mod reading_laws;
pub mod stream;
pub mod stream_laws;
pub mod text;
pub mod unicode;
pub mod walk;
pub mod words;

pub use codec::Filter;
pub use extract::{extract, Check, ExtractError, ExtractedFile, Extraction};
pub use list::{list, Listing};
pub use malformed::Malformed;
pub use meta::ArchiveEntryMeta;
pub use names::split_names;
pub use number::{parse_mode, parse_u32, parse_u64};
pub use pack::{add_symlink, compress, CompressError};
pub use stream::{BoundedReader, ByteSource, CountingWriter};
pub use text::parse_byte_string;
pub use walk::{walk_through_archive, ArchiveEntry, Walk};
