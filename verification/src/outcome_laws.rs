//! What becomes of each entry of an archive when it is extracted.
use vstd::prelude::*;
use vstd::utf8::*;

use crate::balance::is_balanced;
use crate::codec::{crc32_of, flate_decoded, lz4_decoded, lzma_decoded, zstd_decoded};
use crate::extract::{extraction, restore, strings_view, Check, ExtractError, Failure};
use crate::extraction_laws::{
    lemma_restore_corrupted,
    lemma_restore_prefix,
};
use crate::laws::{
    law_archives_concatenate,
    law_entries_lie_apart,
    law_file_reads_back,
    law_symlink_reads_back,
};
use crate::number::digits;
use crate::pack::{file_entry_bytes, symlink_trailer_text};
use crate::text::shows;
use crate::walk::{last_entry, lemma_last_entry, walk};
use crate::words::lemma_filters_differ;

verus! {

/// The first entry found of an archive, and what the walk finds before it.
proof fn lemma_walk_first(archive: Seq<u8>)
    requires
        walk(archive).entries.len() > 0,
    ensures
        ({
            let entry = walk(archive).entries[0];
            let before = walk(archive.take(entry.offset as int));
            &&& entry.offset + entry.meta.size < archive.len()
            &&& walk(archive).entries == seq![entry] + before.entries
            &&& walk(archive).entries.drop_first() == before.entries
            &&& walk(archive).end == before.end
        }),
{
    assert(archive.len() > 0 && last_entry(archive) is Ok);
    lemma_last_entry(archive);
    let entry = last_entry(archive)->Ok_0;
    let before = walk(archive.take(entry.offset as int));
    assert(walk(archive).entries =~= seq![entry] + before.entries);
    assert(walk(archive).entries.drop_first() =~= before.entries);
}

/// What the rest of an archive gives does not depend on the entries behind it,
/// but for a file that was corrupted among these.
proof fn lemma_rest_of_archive(archive: Seq<u8>, only_files: Seq<Seq<char>>)
    requires
        walk(archive).entries.len() > 0,
    ensures
        ({
            let entry = walk(archive).entries[0];
            let more = extraction(archive.take(entry.offset as int), only_files);
            let entries = walk(archive).entries.drop_first();
            let end = walk(archive).end;
            &&& restore(archive, entries, end, only_files, false) == more
            &&& restore(archive, entries, end, only_files, true).files == more.files
            &&& restore(archive, entries, end, only_files, true).end == (if more.end is Ok {
                Err::<(), Failure>(Failure::Corrupted)
            } else {
                more.end
            })
        }),
{
    lemma_walk_first(archive);
    let entry = walk(archive).entries[0];
    let before = archive.take(entry.offset as int);
    let after = archive.skip(entry.offset as int);
    let entries = walk(archive).entries.drop_first();
    let end = walk(archive).end;
    assert(before + after =~= archive);
    law_entries_lie_apart(before);
    lemma_restore_prefix(before, after, entries, end, only_files, false);
    lemma_restore_corrupted(archive, entries, end, only_files);
}

/// An extraction takes the entries of an archive in turn, the last one first,
/// and goes on with what precedes it. An entry whose name is not UTF-8 ends it;
/// one that is not asked for changes nothing; one with an unknown filter, or
/// with data that its filter cannot read, ends it after a failed file. Every
/// other entry, of whatever type, mode and target, gives one file with its
/// name, its mode and its data, and the file is corrupted if and only if there
/// is a checksum and it is not that of the data.
pub proof fn law_entries_are_extracted_in_turn(archive: Seq<u8>, only_files: Seq<Seq<char>>)
    ensures
        archive.len() == 0 ==> extraction(archive, only_files).files.len() == 0 && extraction(
            archive,
            only_files,
        ).end is Ok,
        walk(archive).entries.len() == 0 ==> extraction(archive, only_files).files.len() == 0 && (
        walk(archive).end matches Err(m) ==> extraction(archive, only_files).end == Err::<
            (),
            Failure,
        >(Failure::Malformed(m))),
        walk(archive).entries.len() > 0 ==> ({
            let entry = walk(archive).entries[0];
            let name = decode_utf8(entry.meta.name);
            let filter = entry.meta.filter;
            let payload = archive.subrange(
                entry.offset as int,
                entry.offset as int + entry.meta.size,
            );
            let all = extraction(archive, only_files);
            let more = extraction(archive.take(entry.offset as int), only_files);
            let known = filter == encode_utf8("none"@) || filter == encode_utf8("zstd"@) || filter
                == encode_utf8("flate"@) || filter == encode_utf8("lzma"@) || filter == encode_utf8(
                "lz4"@,
            );
            let read = if filter == encode_utf8("none"@) {
                Some(payload)
            } else if filter == encode_utf8("zstd"@) {
                zstd_decoded(payload)
            } else if filter == encode_utf8("flate"@) {
                flate_decoded(payload)
            } else if filter == encode_utf8("lzma"@) {
                lzma_decoded(payload)
            } else {
                lz4_decoded(payload)
            };
            if !valid_utf8(entry.meta.name) {
                &&& all.files.len() == 0
                &&& all.end == Err::<(), Failure>(Failure::InvalidName)
            } else if only_files.len() > 0 && !only_files.contains(name) {
                all == more
            } else if !known {
                &&& all.files.len() == 1
                &&& all.files[0].name == name
                &&& all.files[0].mode == entry.meta.mode
                &&& all.files[0].data == Some(Seq::<u8>::empty())
                &&& all.files[0].check == Check::Failed
                &&& all.end == Err::<(), Failure>(Failure::UnknownFilter(filter))
            } else if read is None {
                &&& all.files.len() == 1
                &&& all.files[0].name == name
                &&& all.files[0].mode == entry.meta.mode
                &&& all.files[0].data is None
                &&& all.files[0].check == Check::Failed
                &&& all.end == Err::<(), Failure>(Failure::Codec)
            } else {
                let sum = crc32_of(read->0);
                let crc = entry.meta.crc;
                &&& all.files.len() == 1 + more.files.len()
                &&& all.files.drop_first() == more.files
                &&& all.files[0].name == name
                &&& all.files[0].mode == entry.meta.mode
                &&& all.files[0].data == read
                &&& (all.files[0].check == Check::Unchecked <==> crc == 0)
                &&& (all.files[0].check == Check::Matches <==> crc != 0 && sum == crc)
                &&& (all.files[0].check == Check::Corrupted <==> crc != 0 && sum != crc)
                &&& all.end == (if more.end is Ok && crc != 0 && sum != crc {
                    Err::<(), Failure>(Failure::Corrupted)
                } else {
                    more.end
                })
            }
        }),
{
    if walk(archive).entries.len() > 0 {
        let entry = walk(archive).entries[0];
        let all = extraction(archive, only_files);
        let more = extraction(archive.take(entry.offset as int), only_files);
        lemma_walk_first(archive);
        lemma_rest_of_archive(archive, only_files);
        lemma_filters_differ();
        if all.files.len() > 0 {
            assert((seq![all.files[0]] + more.files).drop_first() =~= more.files);
        }
    }
}

/// An extraction succeeds if and only if the archive holds nothing but entries,
/// each of them has a name, and each that is asked for has a known filter that
/// can read its data, and its checksum, where it has one, is that of the data.
pub proof fn law_success_needs_right_checksums(archive: Seq<u8>, only_files: Seq<Seq<char>>)
    ensures
        extraction(archive, only_files).end is Ok <==> walk(archive).end is Ok && forall|i: int|
            #![trigger walk(archive).entries[i]]
            0 <= i < walk(archive).entries.len() ==> {
                let entry = walk(archive).entries[i];
                let filter = entry.meta.filter;
                let payload = archive.subrange(
                    entry.offset as int,
                    entry.offset as int + entry.meta.size,
                );
                &&& valid_utf8(entry.meta.name)
                &&& only_files.len() == 0 || only_files.contains(decode_utf8(entry.meta.name)) ==> {
                    ||| filter == encode_utf8("none"@) && (entry.meta.crc == 0 || crc32_of(payload)
                        == entry.meta.crc)
                    ||| filter == encode_utf8("zstd"@) && (zstd_decoded(payload) matches Some(data)
                        && (entry.meta.crc == 0 || crc32_of(data) == entry.meta.crc))
                    ||| filter == encode_utf8("flate"@) && (flate_decoded(payload) matches Some(
                        data,
                    ) && (entry.meta.crc == 0 || crc32_of(data) == entry.meta.crc))
                    ||| filter == encode_utf8("lzma"@) && (lzma_decoded(payload) matches Some(data)
                        && (entry.meta.crc == 0 || crc32_of(data) == entry.meta.crc))
                    ||| filter == encode_utf8("lz4"@) && (lz4_decoded(payload) matches Some(data)
                        && (entry.meta.crc == 0 || crc32_of(data) == entry.meta.crc))
                }
            },
    decreases archive.len(),
{
    lemma_filters_differ();
    law_entries_are_extracted_in_turn(archive, only_files);
    if walk(archive).entries.len() > 0 {
        let entry = walk(archive).entries[0];
        let before = archive.take(entry.offset as int);
        lemma_walk_first(archive);
        law_entries_lie_apart(before);
        law_success_needs_right_checksums(before, only_files);
        assert forall|i: int| 0 <= i < walk(before).entries.len() implies {
            let e = #[trigger] walk(before).entries[i];
            &&& e == walk(archive).entries[i + 1]
            &&& before.subrange(e.offset as int, e.offset as int + e.meta.size) == archive.subrange(
                e.offset as int,
                e.offset as int + e.meta.size,
            )
        } by {
            let e = walk(before).entries[i];
            assert(before.subrange(e.offset as int, e.offset as int + e.meta.size)
                =~= archive.subrange(e.offset as int, e.offset as int + e.meta.size));
        }
        assert(forall|i: int|
            0 < i < walk(archive).entries.len() ==> #[trigger] walk(archive).entries[i] == walk(
                before,
            ).entries[i - 1]);
    } else {
        assert(archive.len() > 0 ==> walk(archive).end is Err);
    }
}

/// An entry that is written behind an archive is the first one found, and the
/// archive is what precedes it.
proof fn lemma_added_entry(archive: Seq<u8>, bytes: Seq<u8>)
    requires
        walk(bytes).end is Ok,
        walk(bytes).entries.len() == 1,
        walk(bytes).entries[0].offset == 0,
    ensures
        ({
            let entry = walk(bytes).entries[0];
            let found = walk(archive + bytes).entries;
            &&& found.len() > 0
            &&& found[0].meta == entry.meta
            &&& found[0].offset == archive.len()
            &&& (archive + bytes).take(found[0].offset as int) == archive
            &&& (archive + bytes).subrange(
                found[0].offset as int,
                found[0].offset as int + found[0].meta.size,
            ) == bytes.take(entry.meta.size as int)
        }),
{
    law_archives_concatenate(archive, bytes);
    law_entries_lie_apart(bytes);
    let entry = walk(bytes).entries[0];
    let found = walk(archive + bytes).entries;
    assert(found[0].offset == archive.len());
    assert((archive + bytes).take(archive.len() as int) =~= archive);
    assert((archive + bytes).subrange(
        archive.len() as int,
        archive.len() as int + entry.meta.size,
    ) =~= bytes.take(entry.meta.size as int));
}

/// A symlink that was added to an archive comes out of it as an empty file with
/// its name and its mode, whatever these and its target are, and all that the
/// archive held comes out behind it. The parentheses in its name and in its
/// target must pair up.
pub proof fn law_added_symlink_comes_out(
    archive: Seq<u8>,
    shown_name: Seq<char>,
    name: Seq<char>,
    shown_target: Seq<char>,
    target: Seq<char>,
    mode: nat,
    only_files: Seq<Seq<char>>,
)
    requires
        shows(shown_name, name),
        is_balanced(encode_utf8(name)),
        shows(shown_target, target),
        is_balanced(encode_utf8(target)),
        mode <= u32::MAX,
    ensures
        ({
            let entry = encode_utf8("(name="@) + encode_utf8(shown_name) + encode_utf8(
                " type=\"symlink\" target="@,
            ) + encode_utf8(shown_target) + encode_utf8(" mode="@) + digits(mode, 8) + encode_utf8(
                ")"@,
            );
            let all = extraction(archive + entry, only_files);
            let before = extraction(archive, only_files);
            &&& all.end == before.end
            &&& if only_files.len() == 0 || only_files.contains(name) {
                &&& all.files.len() == 1 + before.files.len()
                &&& all.files.drop_first() == before.files
                &&& all.files[0].name == name
                &&& all.files[0].mode == mode
                &&& all.files[0].data == Some(Seq::<u8>::empty())
                &&& all.files[0].check == Check::Unchecked
            } else {
                all.files == before.files
            }
        }),
{
    let entry = symlink_trailer_text(shown_name, shown_target, mode);
    law_symlink_reads_back(shown_name, name, shown_target, target, mode);
    lemma_added_entry(archive, entry);
    law_entries_are_extracted_in_turn(archive + entry, only_files);
    encode_utf8_valid_utf8(name);
    encode_utf8_decode_utf8(name);
    assert(entry.take(0) =~= Seq::<u8>::empty());
}

/// A file that was added to an archive under a known filter comes out of it with
/// its name, its mode and its contents, and is not corrupted; all that the
/// archive held comes out behind it. The parentheses in its name must pair up.
pub proof fn law_added_file_comes_out(
    archive: Seq<u8>,
    payload: Seq<u8>,
    data: Seq<u8>,
    shown_name: Seq<char>,
    name: Seq<char>,
    filter: Seq<char>,
    mode: nat,
    only_files: Seq<Seq<char>>,
)
    requires
        payload.len() <= u64::MAX,
        shows(shown_name, name),
        is_balanced(encode_utf8(name)),
        mode <= u32::MAX,
    ensures
        ({
            let entry = payload + (encode_utf8("(size="@) + digits(payload.len(), 10) + encode_utf8(
                " name="@,
            ) + encode_utf8(shown_name) + encode_utf8(" mode="@) + digits(mode, 8) + encode_utf8(
                " filter=\""@,
            ) + encode_utf8(filter) + encode_utf8("\" crc="@) + digits(crc32_of(data) as nat, 10)
                + encode_utf8(")"@));
            let all = extraction(archive + entry, only_files);
            let before = extraction(archive, only_files);
            ({
                ||| filter == "none"@ && payload == data
                ||| filter == "zstd"@ && zstd_decoded(payload) == Some(data)
                ||| filter == "flate"@ && flate_decoded(payload) == Some(data)
                ||| filter == "lzma"@ && lzma_decoded(payload) == Some(data)
                ||| filter == "lz4"@ && lz4_decoded(payload) == Some(data)
            }) ==> {
                &&& all.end == before.end
                &&& if only_files.len() == 0 || only_files.contains(name) {
                    &&& all.files.len() == 1 + before.files.len()
                    &&& all.files.drop_first() == before.files
                    &&& all.files[0].name == name
                    &&& all.files[0].mode == mode
                    &&& all.files[0].data == Some(data)
                    &&& all.files[0].check == (if crc32_of(data) == 0 {
                        Check::Unchecked
                    } else {
                        Check::Matches
                    })
                } else {
                    all.files == before.files
                }
            }
        }),
{
    if filter == "none"@ || filter == "zstd"@ || filter == "flate"@ || filter == "lzma"@ || filter
        == "lz4"@ {
        let crc = crc32_of(data) as nat;
        let entry = file_entry_bytes(payload, shown_name, mode, filter, crc);
        lemma_filters_differ();
        law_file_reads_back(payload, shown_name, name, mode, filter, crc);
        lemma_added_entry(archive, entry);
        law_entries_are_extracted_in_turn(archive + entry, only_files);
        encode_utf8_valid_utf8(name);
        encode_utf8_decode_utf8(name);
        assert(entry.take(payload.len() as int) =~= payload);
    }
}

/// Every file that comes out of an archive is one of its entries: it has the
/// name and the mode of the entry, and unless it could not be read, the data
/// that the entry's filter reads, checked against the entry's checksum.
pub proof fn law_files_are_entries(archive: Seq<u8>, only_files: Seq<Seq<char>>)
    ensures
        forall|i: int|
            0 <= i < extraction(archive, only_files).files.len() ==> exists|j: int|
                {
                    let file = #[trigger] extraction(archive, only_files).files[i];
                    let entry = #[trigger] walk(archive).entries[j];
                    let crc = entry.meta.crc;
                    let payload = archive.subrange(
                        entry.offset as int,
                        entry.offset as int + entry.meta.size,
                    );
                    &&& 0 <= j < walk(archive).entries.len()
                    &&& valid_utf8(entry.meta.name)
                    &&& file.name == decode_utf8(entry.meta.name)
                    &&& only_files.len() == 0 || only_files.contains(file.name)
                    &&& file.mode == entry.meta.mode
                    &&& file.check != Check::Failed ==> {
                        &&& file.data is Some
                        &&& entry.meta.filter == encode_utf8("none"@) ==> file.data == Some(payload)
                        &&& entry.meta.filter == encode_utf8("zstd"@) ==> file.data == zstd_decoded(
                            payload,
                        )
                        &&& entry.meta.filter == encode_utf8("flate"@) ==> file.data
                            == flate_decoded(payload)
                        &&& entry.meta.filter == encode_utf8("lzma"@) ==> file.data == lzma_decoded(
                            payload,
                        )
                        &&& entry.meta.filter == encode_utf8("lz4"@) ==> file.data == lz4_decoded(
                            payload,
                        )
                        &&& (file.check == Check::Unchecked <==> crc == 0)
                        &&& (file.check == Check::Matches <==> crc != 0 && crc32_of(file.data->0)
                            == crc)
                        &&& (file.check == Check::Corrupted <==> crc != 0 && crc32_of(file.data->0)
                            != crc)
                    }
                },
        extraction(archive, only_files).end is Ok ==> forall|i: int|
            0 <= i < extraction(archive, only_files).files.len() ==> {
                let check = (#[trigger] extraction(archive, only_files).files[i]).check;
                check == Check::Matches || check == Check::Unchecked
            },
        (exists|i: int|
            0 <= i < extraction(archive, only_files).files.len() && (#[trigger] extraction(
                archive,
                only_files,
            ).files[i]).check == Check::Corrupted) ==> extraction(archive, only_files).end is Err,
    decreases archive.len(),
{
    let all = extraction(archive, only_files);
    lemma_filters_differ();
    law_entries_are_extracted_in_turn(archive, only_files);
    if walk(archive).entries.len() > 0 {
        let entry = walk(archive).entries[0];
        let before = archive.take(entry.offset as int);
        let more = extraction(before, only_files);
        lemma_walk_first(archive);
        law_entries_lie_apart(before);
        law_files_are_entries(before, only_files);
        assert forall|j: int| 0 <= j < walk(before).entries.len() implies {
            let e = #[trigger] walk(before).entries[j];
            &&& e == walk(archive).entries[j + 1]
            &&& before.subrange(e.offset as int, e.offset as int + e.meta.size) == archive.subrange(
                e.offset as int,
                e.offset as int + e.meta.size,
            )
        } by {
            let e = walk(before).entries[j];
            assert(before.subrange(e.offset as int, e.offset as int + e.meta.size)
                =~= archive.subrange(e.offset as int, e.offset as int + e.meta.size));
        }
        assert forall|i: int| 0 <= i < all.files.len() implies {
            ||| all == more
            ||| i == 0
            ||| #[trigger] all.files[i] == more.files[i - 1] && all.files.len() == 1
                + more.files.len()
        } by {
            if all != more && i > 0 {
                assert(all.files[i] == all.files.drop_first()[i - 1]);
            }
        }
        if all != more {
            assert(all.files.len() > 0 ==> walk(archive).entries[0].meta.mode
                == all.files[0].mode);
        }
    }
}

/// The files that are asked for are those with the names given, one for one.
pub proof fn law_names_asked_for(names: Seq<String>)
    ensures
        strings_view(names).len() == names.len(),
        forall|i: int| 0 <= i < names.len() ==> #[trigger] strings_view(names)[i] == names[i]@,
{
}

/// The value in an error is the same error, with the same filter or problem.
pub proof fn law_errors_are_told_apart(error: ExtractError)
    ensures
        error@ is InvalidName <==> error is InvalidName,
        error@ is UnknownFilter <==> error is UnknownFilter,
        error@ is Codec <==> error is Codec,
        error@ is Corrupted <==> error is Corrupted,
        error@ is Malformed <==> error is Malformed,
        error matches ExtractError::UnknownFilter(name) ==> error@ == Failure::UnknownFilter(name@),
        error matches ExtractError::Malformed(m) ==> error@ == Failure::Malformed(m@),
{
}

} // verus!
