//! Getting files out of an archive.
use vstd::prelude::*;
use vstd::utf8::*;

use crate::codec::{crc32, crc32_of, decoded, filter_named, Filter};
use crate::malformed::Malformed;
use crate::outcome_laws::law_files_are_entries;
use crate::stream::{BoundedReader, ByteSource};
use crate::text::utf8_string;
use crate::walk::{lemma_last_entry, read_last_entry, walk, ArchiveEntry, Entry};

verus! {

/// What the checksum of an entry says of the data that came out of it.
#[derive(Debug, Clone, Copy, PartialEq, Eq, Structural)]
pub enum Check {
    /// The entry has no checksum.
    Unchecked,
    /// The data is what was put in.
    Matches,
    /// The data is not what was put in.
    Corrupted,
    /// The data could not be read to its end, so nothing was checked.
    Failed,
}

/// A file to be written.
#[derive(Debug)]
pub struct ExtractedFile {
    /// The name under which it is stored.
    pub name: String,
    /// The mode that a new file gets.
    pub mode: u32,
    /// The contents, up to where reading them failed if it did.
    pub data: Vec<u8>,
    /// What the checksum says.
    pub check: Check,
}

/// Why an extraction stops before the start of the archive, or is no success
/// after all.
#[derive(Debug)]
pub enum ExtractError {
    /// The name of an entry is not UTF-8.
    InvalidName(std::string::FromUtf8Error),
    /// There is no filter of this name.
    UnknownFilter(Vec<u8>),
    /// The compressed data of an entry is damaged.
    Codec(std::io::Error),
    /// One or more extracted files do not match their checksums.
    Corrupted,
    /// The archive holds bytes that are no entry.
    Malformed(Malformed<Vec<u8>>),
}

/// The values in an [`ExtractError`].
pub enum Failure {
    InvalidName,
    UnknownFilter(Seq<u8>),
    Codec,
    Corrupted,
    Malformed(Malformed<Seq<u8>>),
}

impl View for ExtractError {
    type V = Failure;

    open spec fn view(&self) -> Failure {
        match self {
            ExtractError::InvalidName(_) => Failure::InvalidName,
            ExtractError::UnknownFilter(name) => Failure::UnknownFilter(name@),
            ExtractError::Codec(_) => Failure::Codec,
            ExtractError::Corrupted => Failure::Corrupted,
            ExtractError::Malformed(m) => Failure::Malformed(m@),
        }
    }
}

/// The files that came out of an archive, in the order in which they are to be
/// written, and how the extraction ended.
#[derive(Debug)]
pub struct Extraction {
    pub files: Vec<ExtractedFile>,
    pub end: Result<(), ExtractError>,
}

/// What an [`ExtractedFile`] must be. `data` is `None` where the contents
/// cannot be read to their end: how much of them can be read is then up to the
/// compression library.
#[verifier::ext_equal]
pub struct RestoredFile {
    pub name: Seq<char>,
    pub mode: nat,
    pub data: Option<Seq<u8>>,
    pub check: Check,
}

/// What an [`Extraction`] must be.
#[verifier::ext_equal]
pub struct Restored {
    pub files: Seq<RestoredFile>,
    pub end: Result<(), Failure>,
}

impl ExtractedFile {
    /// Whether this is the file that `expected` describes.
    pub open spec fn is(self, expected: RestoredFile) -> bool {
        &&& self.name@ == expected.name
        &&& self.mode == expected.mode
        &&& expected.data matches Some(data) ==> self.data@ == data
        &&& self.check == expected.check
    }
}

/// Whether `files` are the files that `expected` describes.
pub open spec fn are_files(files: Seq<ExtractedFile>, expected: Seq<RestoredFile>) -> bool {
    &&& files.len() == expected.len()
    &&& forall|i: int| 0 <= i < files.len() ==> (#[trigger] files[i]).is(expected[i])
}

/// The value in the end of an extraction.
pub open spec fn failure_view(end: Result<(), ExtractError>) -> Result<(), Failure> {
    match end {
        Ok(()) => Ok(()),
        Err(e) => Err(e@),
    }
}

impl Extraction {
    /// Whether this is the extraction that `expected` describes.
    pub open spec fn is(self, expected: Restored) -> bool {
        &&& are_files(self.files@, expected.files)
        &&& failure_view(self.end) == expected.end
    }
}

/// The characters of each string in a list.
pub open spec fn strings_view(strings: Seq<String>) -> Seq<Seq<char>> {
    Seq::new(strings.len(), |i: int| strings[i]@)
}

/// Whether the file `name` is wanted: all are where none is asked for.
pub open spec fn is_selected(name: Seq<char>, only_files: Seq<Seq<char>>) -> bool {
    only_files.len() == 0 || only_files.contains(name)
}

/// What a checksum says of data whose own checksum is `actual`; 0 says
/// nothing.
pub open spec fn check_of(expected: nat, actual: nat) -> Check {
    if expected == 0 {
        Check::Unchecked
    } else if actual == expected {
        Check::Matches
    } else {
        Check::Corrupted
    }
}

/// The bytes of the archive that hold the data of an entry.
pub open spec fn payload_of(archive: Seq<u8>, entry: Entry) -> Seq<u8> {
    archive.subrange(entry.offset as int, entry.offset as int + entry.meta.size)
}

/// What becomes of one entry.
#[verifier::ext_equal]
pub enum Outcome {
    /// It is not wanted.
    Skipped,
    /// No file comes of it, and the extraction stops.
    Refused(Failure),
    /// It is written.
    Written(RestoredFile),
    /// It is written as far as it can be read, and the extraction stops.
    Broken(RestoredFile, Failure),
}

/// What becomes of an entry of `archive`.
pub open spec fn outcome(archive: Seq<u8>, entry: Entry, only_files: Seq<Seq<char>>) -> Outcome {
    let meta = entry.meta;
    let name = decode_utf8(meta.name);
    if !valid_utf8(meta.name) {
        Outcome::Refused(Failure::InvalidName)
    } else if !is_selected(name, only_files) {
        Outcome::Skipped
    } else {
        match filter_named(meta.filter) {
            None => Outcome::Broken(
                RestoredFile {
                    name,
                    mode: meta.mode,
                    data: Some(Seq::empty()),
                    check: Check::Failed,
                },
                Failure::UnknownFilter(meta.filter),
            ),
            Some(filter) => match decoded(filter, payload_of(archive, entry)) {
                None => Outcome::Broken(
                    RestoredFile { name, mode: meta.mode, data: None, check: Check::Failed },
                    Failure::Codec,
                ),
                Some(data) => Outcome::Written(
                    RestoredFile {
                        name,
                        mode: meta.mode,
                        data: Some(data),
                        check: check_of(meta.crc, crc32_of(data) as nat),
                    },
                ),
            },
        }
    }
}

/// What comes of `entries` of `archive`, taken in turn. `end` is how the walk
/// through the archive ended after them, and `corrupted` whether a file before
/// them did not match its checksum.
pub open spec fn restore(
    archive: Seq<u8>,
    entries: Seq<Entry>,
    end: Result<(), Malformed<Seq<u8>>>,
    only_files: Seq<Seq<char>>,
    corrupted: bool,
) -> Restored
    decreases entries.len(),
{
    if entries.len() == 0 {
        Restored {
            files: Seq::empty(),
            end: match end {
                Err(m) => Err(Failure::Malformed(m)),
                Ok(()) => if corrupted {
                    Err(Failure::Corrupted)
                } else {
                    Ok(())
                },
            },
        }
    } else {
        match outcome(archive, entries[0], only_files) {
            Outcome::Skipped => restore(
                archive,
                entries.drop_first(),
                end,
                only_files,
                corrupted,
            ),
            Outcome::Refused(failure) => Restored { files: Seq::empty(), end: Err(failure) },
            Outcome::Written(file) => {
                let more = restore(
                    archive,
                    entries.drop_first(),
                    end,
                    only_files,
                    corrupted || file.check == Check::Corrupted,
                );
                Restored { files: seq![file] + more.files, end: more.end }
            },
            Outcome::Broken(file, failure) => Restored { files: seq![file], end: Err(failure) },
        }
    }
}

/// What comes out of `archive`.
pub open spec fn extraction(archive: Seq<u8>, only_files: Seq<Seq<char>>) -> Restored {
    restore(archive, walk(archive).entries, walk(archive).end, only_files, false)
}

/// Compares the checksum of an entry with that of its data.
pub fn judge(expected: u32, actual: u32) -> (check: Check)
    ensures
        check == check_of(expected as nat, actual as nat),
        check == Check::Unchecked <==> expected == 0,
        check == Check::Matches <==> expected != 0 && actual == expected,
        check == Check::Corrupted <==> expected != 0 && actual != expected,
{
    if expected == 0 {
        Check::Unchecked
    } else if actual == expected {
        Check::Matches
    } else {
        Check::Corrupted
    }
}

/// Whether a file is wanted.
pub fn selected(name: &String, only_files: &Vec<String>) -> (wanted: bool)
    ensures
        wanted == is_selected(name@, strings_view(only_files@)),
        wanted <==> only_files@.len() == 0 || exists|i: int|
            0 <= i < only_files@.len() && (#[trigger] only_files@[i])@ == name@,
{
    if only_files.len() == 0 {
        return true;
    }
    let ghost names = strings_view(only_files@);
    let mut i: usize = 0;
    while i < only_files.len()
        invariant
            i <= only_files@.len(),
            names == strings_view(only_files@),
            forall|j: int| 0 <= j < i ==> #[trigger] names[j] != name@,
            forall|j: int| 0 <= j < i ==> (#[trigger] only_files@[j])@ != name@,
        decreases only_files@.len() - i,
    {
        assert(names[i as int] == only_files@[i as int]@);
        if *name == only_files[i] {
            return true;
        }
        i += 1;
    }
    false
}

/// Reads `size` bytes of the archive from `offset` on.
fn read_payload(archive: &[u8], offset: u64, size: u64) -> (payload: Vec<u8>)
    requires
        offset + size <= archive@.len(),
    ensures
        payload@ == archive@.subrange(offset as int, offset + size),
{
    let archive_size: usize = archive.len();
    assert(offset + size <= archive_size);
    let mut source: ByteSource = ByteSource::new(archive);
    source.seek(offset as usize);
    let mut archive_reader: BoundedReader<ByteSource> = BoundedReader::new(
        &mut source,
        size as usize,
    );
    let payload = archive_reader.read_to_end();
    assert(payload@ =~= archive@.subrange(offset as int, offset + size));
    payload
}

/// What became of one entry.
#[derive(Debug)]
pub enum EntryOutcome {
    /// It is not wanted.
    Skipped,
    /// No file comes of it, and the extraction stops.
    Refused(ExtractError),
    /// It is to be written.
    Written(ExtractedFile),
    /// It is to be written as far as it could be read, and the extraction
    /// stops.
    Broken(ExtractedFile, ExtractError),
}

impl EntryOutcome {
    /// Whether this is the outcome that `expected` describes.
    pub open spec fn is(self, expected: Outcome) -> bool {
        match (self, expected) {
            (EntryOutcome::Skipped, Outcome::Skipped) => true,
            (EntryOutcome::Refused(e), Outcome::Refused(failure)) => e@ == failure,
            (EntryOutcome::Written(file), Outcome::Written(expected)) => file.is(expected),
            (EntryOutcome::Broken(file, e), Outcome::Broken(expected, failure)) => file.is(
                expected,
            ) && e@ == failure,
            _ => false,
        }
    }
}

/// Extracts one entry of the archive.
pub fn extract_entry(archive: &[u8], entry: ArchiveEntry, only_files: &Vec<String>) -> (result:
    EntryOutcome)
    requires
        entry.offset + entry.meta.size <= archive@.len(),
    ensures
        result.is(outcome(archive@, entry@, strings_view(only_files@))),
        match (result, outcome(archive@, entry@, strings_view(only_files@))) {
            (EntryOutcome::Skipped, Outcome::Skipped) => true,
            (EntryOutcome::Refused(e), Outcome::Refused(failure)) => e@ == failure,
            (EntryOutcome::Written(file), Outcome::Written(expected)) => {
                &&& file.name@ == expected.name
                &&& file.mode == expected.mode
                &&& expected.data == Some(file.data@)
                &&& file.check == expected.check
            },
            (EntryOutcome::Broken(file, e), Outcome::Broken(expected, failure)) => {
                &&& file.name@ == expected.name
                &&& file.mode == expected.mode
                &&& expected.data matches Some(data) ==> file.data@ == data
                &&& file.check == expected.check
                &&& e@ == failure
            },
            _ => false,
        },
{
    let offset: u64 = entry.offset;
    let meta = entry.meta;
    let name: String = match utf8_string(meta.name) {
        Ok(name) => name,
        Err(e) => {
            return EntryOutcome::Refused(ExtractError::InvalidName(e));
        },
    };
    if !selected(&name, only_files) {
        return EntryOutcome::Skipped;
    }
    let mut data: Vec<u8> = Vec::new();
    let filter: Filter = match Filter::from_name(meta.filter.as_slice()) {
        Some(filter) => filter,
        None => {
            let file = ExtractedFile { name, mode: meta.mode, data, check: Check::Failed };
            return EntryOutcome::Broken(file, ExtractError::UnknownFilter(meta.filter));
        },
    };
    let payload: Vec<u8> = read_payload(archive, offset, meta.size);
    match filter.decode(payload.as_slice(), &mut data) {
        Ok(()) => {
            let check: Check = judge(meta.crc, crc32(data.as_slice()));
            assert(forall|d: Seq<u8>| Seq::<u8>::empty() + d =~= d);
            EntryOutcome::Written(ExtractedFile { name, mode: meta.mode, data, check })
        },
        Err(e) => {
            let file = ExtractedFile { name, mode: meta.mode, data, check: Check::Failed };
            EntryOutcome::Broken(file, ExtractError::Codec(e))
        },
    }
}

/// Extracts all files from an archive, or only those that are asked for.
pub fn extract(archive: &[u8], only_files: &Vec<String>) -> (result: Extraction)
    ensures
        result.is(extraction(archive@, strings_view(only_files@))),
        result.files@.len() == extraction(archive@, strings_view(only_files@)).files.len(),
        forall|i: int|
            0 <= i < result.files@.len() ==> {
                let file = #[trigger] result.files@[i];
                let expected = extraction(archive@, strings_view(only_files@)).files[i];
                &&& file.name@ == expected.name
                &&& file.mode == expected.mode
                &&& expected.data matches Some(data) ==> file.data@ == data
                &&& file.check == expected.check
            },
        match (result.end, extraction(archive@, strings_view(only_files@)).end) {
            (Ok(()), Ok(())) => true,
            (Err(ExtractError::InvalidName(_)), Err(Failure::InvalidName)) => true,
            (
                Err(ExtractError::UnknownFilter(name)),
                Err(Failure::UnknownFilter(expected)),
            ) => name@ == expected,
            (Err(ExtractError::Codec(_)), Err(Failure::Codec)) => true,
            (Err(ExtractError::Corrupted), Err(Failure::Corrupted)) => true,
            (Err(ExtractError::Malformed(m)), Err(Failure::Malformed(expected))) => m@ == expected,
            _ => false,
        },
        forall|i: int|
            0 <= i < result.files@.len() ==> exists|j: int|
                {
                    let file = #[trigger] result.files@[i];
                    let entry = #[trigger] walk(archive@).entries[j];
                    let crc = entry.meta.crc;
                    &&& 0 <= j < walk(archive@).entries.len()
                    &&& valid_utf8(entry.meta.name)
                    &&& file.name@ == decode_utf8(entry.meta.name)
                    &&& file.mode == entry.meta.mode
                    &&& file.check != Check::Failed ==> {
                        &&& (file.check == Check::Unchecked <==> crc == 0)
                        &&& (file.check == Check::Matches <==> crc != 0 && crc32_of(file.data@)
                            == crc)
                        &&& (file.check == Check::Corrupted <==> crc != 0 && crc32_of(file.data@)
                            != crc)
                    }
                },
        result.end is Ok ==> forall|i: int|
            0 <= i < result.files@.len() ==> (#[trigger] result.files@[i]).check == Check::Matches
                || result.files@[i].check == Check::Unchecked,
        (exists|i: int|
            0 <= i < result.files@.len() && (#[trigger] result.files@[i]).check
                == Check::Corrupted) ==> result.end is Err,
{
    let result = extract_in_turn(archive, only_files);
    let ghost only = strings_view(only_files@);
    let ghost all = extraction(archive@, only);
    proof {
        law_files_are_entries(archive@, only);
        assert forall|i: int| 0 <= i < result.files@.len() implies (#[trigger] result.files@[i]).is(
            all.files[i],
        ) by {
        }
        assert forall|i: int| 0 <= i < result.files@.len() implies exists|j: int|
            {
                let file = #[trigger] result.files@[i];
                let entry = #[trigger] walk(archive@).entries[j];
                let crc = entry.meta.crc;
                &&& 0 <= j < walk(archive@).entries.len()
                &&& valid_utf8(entry.meta.name)
                &&& file.name@ == decode_utf8(entry.meta.name)
                &&& file.mode == entry.meta.mode
                &&& file.check != Check::Failed ==> {
                    &&& (file.check == Check::Unchecked <==> crc == 0)
                    &&& (file.check == Check::Matches <==> crc != 0 && crc32_of(file.data@) == crc)
                    &&& (file.check == Check::Corrupted <==> crc != 0 && crc32_of(file.data@)
                        != crc)
                }
            } by {
            let file = result.files@[i];
            let expected = all.files[i];
            assert(file.is(expected));
        }
        if exists|i: int|
            0 <= i < result.files@.len() && (#[trigger] result.files@[i]).check
                == Check::Corrupted {
            let i = choose|i: int|
                0 <= i < result.files@.len() && (#[trigger] result.files@[i]).check
                    == Check::Corrupted;
            assert(all.files[i].check == Check::Corrupted);
        }
    }
    result
}

/// Extracts the entries of an archive one after the other.
fn extract_in_turn(archive: &[u8], only_files: &Vec<String>) -> (result: Extraction)
    ensures
        result.is(extraction(archive@, strings_view(only_files@))),
{
    let mut files: Vec<ExtractedFile> = Vec::new();
    let mut corrupted: bool = false;
    let mut archive_size_left: usize = archive.len();
    let ghost only = strings_view(only_files@);
    let ghost all = extraction(archive@, only);
    let ghost mut done: Seq<RestoredFile> = Seq::empty();
    assert(archive@.take(archive@.len() as int) =~= archive@);
    assert(done + all.files =~= all.files);
    while archive_size_left > 0
        invariant
            archive_size_left <= archive@.len(),
            only == strings_view(only_files@),
            all == extraction(archive@, only),
            are_files(files@, done),
            ({
                let left = walk(archive@.take(archive_size_left as int));
                let more = restore(archive@, left.entries, left.end, only, corrupted);
                all.files == done + more.files && all.end == more.end
            }),
        decreases archive_size_left,
    {
        let ghost here = archive@.take(archive_size_left as int);
        proof {
            lemma_last_entry(here);
        }
        let entry: ArchiveEntry = match read_last_entry(archive, archive_size_left) {
            Ok(entry) => entry,
            Err(e) => {
                assert(done + Seq::<RestoredFile>::empty() =~= done);
                return Extraction { files, end: Err(ExtractError::Malformed(e)) };
            },
        };
        let ghost view = entry@;
        let ghost before = walk(here.take(view.offset as int));
        let offset: usize = entry.offset as usize;
        proof {
            assert(here.take(offset as int) =~= archive@.take(offset as int));
            assert(walk(here).entries[0] == view);
            assert(walk(here).entries.drop_first() =~= before.entries);
        }
        match extract_entry(archive, entry, only_files) {
            EntryOutcome::Skipped => {},
            EntryOutcome::Refused(e) => {
                assert(done + Seq::<RestoredFile>::empty() =~= done);
                return Extraction { files, end: Err(e) };
            },
            EntryOutcome::Written(file) => {
                if file.check == Check::Corrupted {
                    corrupted = true;
                }
                proof {
                    let expected = outcome(archive@, view, only)->Written_0;
                    let more = restore(archive@, before.entries, before.end, only, corrupted);
                    assert(done + (seq![expected] + more.files) =~= done.push(expected)
                        + more.files);
                    done = done.push(expected);
                }
                files.push(file);
            },
            EntryOutcome::Broken(file, e) => {
                proof {
                    let expected = outcome(archive@, view, only)->Broken_0;
                    assert(done + seq![expected] =~= done.push(expected));
                }
                files.push(file);
                return Extraction { files, end: Err(e) };
            },
        }
        archive_size_left = offset;
    }
    assert(done + Seq::<RestoredFile>::empty() =~= done);
    if corrupted {
        Extraction { files, end: Err(ExtractError::Corrupted) }
    } else {
        Extraction { files, end: Ok(()) }
    }
}

} // verus!
