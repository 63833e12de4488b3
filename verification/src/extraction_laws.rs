//! What holds of the files that come out of archives.
use vstd::prelude::*;
use vstd::utf8::*;

use crate::balance::is_balanced;
use crate::codec::{crc32_of, decoded, encodes, filter_named, Filter};
use crate::extract::{
    extraction,
    is_selected,
    outcome,
    payload_of,
    restore,
    Check,
    Failure,
    Outcome,
    Restored,
    RestoredFile,
};
use crate::laws::{
    law_archives_concatenate,
    law_entries_lie_apart,
    law_file_reads_back,
    shift,
    shift_all,
};
use crate::malformed::Malformed;
use crate::pack::{file_entry_bytes, is_compressed_file};
use crate::text::{debug_text, shows};
use crate::walk::{walk, Entry};

verus! {

/// There is one value without contents.
pub proof fn lemma_unit(u: ())
    ensures
        u == (),
{
}

/// Whether an extraction went through all entries of its archive.
pub open spec fn is_complete(restored: Restored) -> bool {
    restored.end is Ok || restored.end == Err::<(), Failure>(Failure::Corrupted)
}

/// The end of an extraction that goes on after `first` with `second`.
pub open spec fn joint_end(first: Result<(), Failure>, second: Result<(), Failure>) -> Result<
    (),
    Failure,
> {
    if second is Ok {
        first
    } else {
        second
    }
}

/// Whether all entries lie in the first `len` bytes of an archive.
pub open spec fn lie_within(entries: Seq<Entry>, len: nat) -> bool {
    forall|i: int|
        0 <= i < entries.len() ==> (#[trigger] entries[i]).offset + entries[i].meta.size <= len
}

/// What becomes of an entry does not depend on what follows it.
pub proof fn lemma_restore_prefix(
    a: Seq<u8>,
    b: Seq<u8>,
    entries: Seq<Entry>,
    end: Result<(), Malformed<Seq<u8>>>,
    only_files: Seq<Seq<char>>,
    corrupted: bool,
)
    requires
        lie_within(entries, a.len()),
    ensures
        restore(a + b, entries, end, only_files, corrupted) == restore(
            a,
            entries,
            end,
            only_files,
            corrupted,
        ),
    decreases entries.len(),
{
    if entries.len() > 0 {
        let more = entries.drop_first();
        assert(lie_within(more, a.len())) by {
            assert forall|i: int| 0 <= i < more.len() implies (#[trigger] more[i]).offset
                + more[i].meta.size <= a.len() by {
                assert(more[i] == entries[i + 1]);
            }
        }
        assert(payload_of(a + b, entries[0]) =~= payload_of(a, entries[0]));
        lemma_restore_prefix(a, b, more, end, only_files, corrupted);
        lemma_restore_prefix(a, b, more, end, only_files, true);
    }
}

/// A corrupted file spoils an extraction that would else end well, and changes
/// nothing else.
pub proof fn lemma_restore_corrupted(
    archive: Seq<u8>,
    entries: Seq<Entry>,
    end: Result<(), Malformed<Seq<u8>>>,
    only_files: Seq<Seq<char>>,
)
    ensures
        ({
            let clean = restore(archive, entries, end, only_files, false);
            restore(archive, entries, end, only_files, true) == (Restored {
                files: clean.files,
                end: joint_end(Err(Failure::Corrupted), clean.end),
            })
        }),
    decreases entries.len(),
{
    if entries.len() > 0 {
        lemma_restore_corrupted(archive, entries.drop_first(), end, only_files);
    }
}

/// What becomes of entries does not depend on what precedes them.
proof fn lemma_restore_suffix(
    a: Seq<u8>,
    b: Seq<u8>,
    later: Seq<Entry>,
    earlier: Seq<Entry>,
    end: Result<(), Malformed<Seq<u8>>>,
    only_files: Seq<Seq<char>>,
    corrupted: bool,
)
    requires
        lie_within(later, b.len()),
    ensures
        ({
            let all = restore(
                a + b,
                shift_all(later, a.len()) + earlier,
                end,
                only_files,
                corrupted,
            );
            let first = restore(b, later, Ok(()), only_files, corrupted);
            let second = restore(a + b, earlier, end, only_files, false);
            if is_complete(first) {
                &&& all.files == first.files + second.files
                &&& all.end == joint_end(first.end, second.end)
            } else {
                all == first
            }
        }),
    decreases later.len(),
{
    let shifted = shift_all(later, a.len());
    let entries = shifted + earlier;
    if later.len() == 0 {
        assert(entries =~= earlier);
        lemma_restore_corrupted(a + b, earlier, end, only_files);
        let second = restore(a + b, earlier, end, only_files, false);
        lemma_unit(second.end->Ok_0);
        assert(Seq::<RestoredFile>::empty() + second.files =~= second.files);
    } else {
        let more = later.drop_first();
        assert(lie_within(more, b.len())) by {
            assert forall|i: int| 0 <= i < more.len() implies (#[trigger] more[i]).offset
                + more[i].meta.size <= b.len() by {
                assert(more[i] == later[i + 1]);
            }
        }
        assert(entries[0] == shift(later[0], a.len()));
        assert(entries.drop_first() =~= shift_all(more, a.len()) + earlier);
        assert(payload_of(a + b, entries[0]) =~= payload_of(b, later[0]));
        assert(outcome(a + b, entries[0], only_files) == outcome(b, later[0], only_files));
        lemma_restore_suffix(a, b, more, earlier, end, only_files, corrupted);
        lemma_restore_suffix(a, b, more, earlier, end, only_files, true);
        match outcome(b, later[0], only_files) {
            Outcome::Written(file) => {
                let c = corrupted || file.check == Check::Corrupted;
                let first = restore(b, more, Ok(()), only_files, c);
                let second = restore(a + b, earlier, end, only_files, false);
                assert(seq![file] + (first.files + second.files) =~= (seq![file] + first.files)
                    + second.files);
            },
            _ => {
            },
        }
    }
}

/// What comes out of combined archives is what comes out of the second one and
/// then, unless that stopped early, what comes out of the first one.
pub proof fn law_extractions_concatenate(a: Seq<u8>, b: Seq<u8>, only_files: Seq<Seq<char>>)
    requires
        walk(b).end is Ok,
    ensures
        ({
            let all = extraction(a + b, only_files);
            let first = extraction(b, only_files);
            let second = extraction(a, only_files);
            if is_complete(first) {
                &&& all.files == first.files + second.files
                &&& all.end == joint_end(first.end, second.end)
            } else {
                all == first
            }
        }),
{
    law_archives_concatenate(a, b);
    law_entries_lie_apart(a);
    law_entries_lie_apart(b);
    lemma_unit(walk(b).end->Ok_0);
    assert(walk(b).end == Ok::<(), Malformed<Seq<u8>>>(()));
    lemma_restore_suffix(
        a,
        b,
        walk(b).entries,
        walk(a).entries,
        walk(a).end,
        only_files,
        false,
    );
    lemma_restore_prefix(a, b, walk(a).entries, walk(a).end, only_files, false);
}

/// What comes out of a written file.
proof fn lemma_file_extracts(
    payload: Seq<u8>,
    data: Seq<u8>,
    shown_name: Seq<char>,
    name: Seq<char>,
    mode: nat,
    filter_name: Seq<char>,
    filter: Filter,
    only_files: Seq<Seq<char>>,
)
    requires
        payload.len() <= u64::MAX,
        shows(shown_name, name),
        is_balanced(encode_utf8(name)),
        mode <= u32::MAX,
        filter_named(encode_utf8(filter_name)) == Some(filter),
        decoded(filter, payload) == Some(data),
    ensures
        ({
            let entry = file_entry_bytes(
                payload,
                shown_name,
                mode,
                filter_name,
                crc32_of(data) as nat,
            );
            &&& walk(entry).end is Ok
            &&& extraction(entry, only_files) == (Restored {
                files: added_file(name, mode, data, only_files),
                end: Ok(()),
            })
        }),
{
    let crc = crc32_of(data) as nat;
    let archive = file_entry_bytes(payload, shown_name, mode, filter_name, crc);
    law_file_reads_back(payload, shown_name, name, mode, filter_name, crc);
    encode_utf8_valid_utf8(name);
    encode_utf8_decode_utf8(name);
    let entries = walk(archive).entries;
    let entry = entries[0];
    assert(entries.len() == 1);
    assert(payload_of(archive, entry) =~= payload);
    assert(entries.drop_first() =~= Seq::<Entry>::empty());
    reveal_with_fuel(restore, 2);
    assert(extraction(archive, only_files).files =~= added_file(name, mode, data, only_files));
}

/// The file that comes out of an archive because it was added to it, if it is
/// wanted. A checksum of 0 is not looked at.
pub open spec fn added_file(
    name: Seq<char>,
    mode: nat,
    data: Seq<u8>,
    only_files: Seq<Seq<char>>,
) -> Seq<RestoredFile> {
    if is_selected(name, only_files) {
        seq![
            RestoredFile {
                name,
                mode,
                data: Some(data),
                check: if crc32_of(data) == 0 {
                    Check::Unchecked
                } else {
                    Check::Matches
                },
            },
        ]
    } else {
        Seq::empty()
    }
}

/// A file that was added to an archive comes out of it again: with its
/// contents, its name and its mode, never as corrupted, and before all that
/// the archive held already. The parentheses in its name must pair up.
pub proof fn law_added_file_comes_back(
    archive: Seq<u8>,
    entry: Seq<u8>,
    data: Seq<u8>,
    name: Seq<char>,
    filter_name: Seq<char>,
    filter: Filter,
    level: int,
    mode: nat,
    only_files: Seq<Seq<char>>,
)
    requires
        entry.len() <= u64::MAX,
        is_balanced(encode_utf8(name)),
        filter_named(encode_utf8(filter_name)) == Some(filter),
        mode <= u32::MAX,
    ensures
        is_compressed_file(
            entry,
            data,
            name,
            filter_name,
            filter,
            level,
            mode,
        ) ==> extraction(archive + entry, only_files) == (Restored {
            files: added_file(name, mode, data, only_files) + extraction(archive, only_files).files,
            end: extraction(archive, only_files).end,
        }),
{
    if is_compressed_file(
        entry,
        data,
        name,
        filter_name,
        filter,
        level,
        mode,
    ) {
        let payload = choose|payload: Seq<u8>|
            {
                &&& #[trigger] encodes(filter, level, data, payload)
                &&& entry == file_entry_bytes(
                    payload,
                    debug_text(name),
                    mode,
                    filter_name,
                    crc32_of(data) as nat,
                )
            };
        assert(payload.len() <= entry.len());
        lemma_file_extracts(
            payload,
            data,
            debug_text(name),
            name,
            mode,
            filter_name,
            filter,
            only_files,
        );
        law_extractions_concatenate(archive, entry, only_files);
        lemma_unit(extraction(archive, only_files).end->Ok_0);
    }
}

/// Whether nothing is wrong with what becomes of an entry.
pub open spec fn is_fine(outcome: Outcome) -> bool {
    match outcome {
        Outcome::Skipped => true,
        Outcome::Written(file) => file.check != Check::Corrupted,
        _ => false,
    }
}

proof fn lemma_restore_ends_well(
    archive: Seq<u8>,
    entries: Seq<Entry>,
    end: Result<(), Malformed<Seq<u8>>>,
    only_files: Seq<Seq<char>>,
)
    ensures
        restore(archive, entries, end, only_files, false).end is Ok <==> end is Ok && forall|i: int|
            0 <= i < entries.len() ==> is_fine(outcome(archive, #[trigger] entries[i], only_files)),
    decreases entries.len(),
{
    if entries.len() > 0 {
        let more = entries.drop_first();
        lemma_restore_ends_well(archive, more, end, only_files);
        lemma_restore_corrupted(archive, more, end, only_files);
        assert forall|i: int| 0 <= i < more.len() implies #[trigger] more[i] == entries[i + 1] by {
        }
        if restore(archive, entries, end, only_files, false).end is Ok {
            assert forall|i: int| 0 <= i < entries.len() implies is_fine(
                outcome(archive, #[trigger] entries[i], only_files),
            ) by {
                if i > 0 {
                    assert(entries[i] == more[i - 1]);
                }
            }
        }
    }
}

/// An extraction succeeds if and only if the archive holds nothing but entries
/// and each of those that are wanted could be read and matches its checksum.
pub proof fn law_success_means_intact(archive: Seq<u8>, only_files: Seq<Seq<char>>)
    ensures
        ({
            let entries = walk(archive).entries;
            extraction(archive, only_files).end is Ok <==> walk(archive).end is Ok && forall|i: int|
                0 <= i < entries.len() ==> is_fine(
                    outcome(archive, #[trigger] entries[i], only_files),
                )
        }),
{
    lemma_restore_ends_well(archive, walk(archive).entries, walk(archive).end, only_files);
}

proof fn lemma_restore_everything(
    archive: Seq<u8>,
    entries: Seq<Entry>,
    end: Result<(), Malformed<Seq<u8>>>,
)
    ensures
        ({
            let all = restore(archive, entries, end, Seq::empty(), false);
            is_complete(all) ==> {
                &&& all.files.len() == entries.len()
                &&& forall|i: int|
                    0 <= i < entries.len() ==> outcome(archive, #[trigger] entries[i], Seq::empty())
                        == Outcome::Written(all.files[i])
            }
        }),
    decreases entries.len(),
{
    if entries.len() > 0 {
        let more = entries.drop_first();
        lemma_restore_everything(archive, more, end);
        lemma_restore_corrupted(archive, more, end, Seq::empty());
        let all = restore(archive, entries, end, Seq::empty(), false);
        let rest = restore(archive, more, end, Seq::empty(), false);
        if is_complete(all) {
            assert(outcome(archive, entries[0], Seq::empty()) is Written);
            let file = outcome(archive, entries[0], Seq::empty())->Written_0;
            assert(all.files =~= seq![file] + rest.files);
            assert forall|i: int| 0 <= i < entries.len() implies outcome(
                archive,
                #[trigger] entries[i],
                Seq::empty(),
            ) == Outcome::Written(all.files[i]) by {
                if i > 0 {
                    assert(entries[i] == more[i - 1]);
                    assert(all.files[i] == rest.files[i - 1]);
                }
            }
        }
    }
}

/// An extraction that goes through an archive to its start gives one file for
/// each entry, in the order of the walk.
pub proof fn law_every_entry_comes_out(archive: Seq<u8>)
    ensures
        ({
            let all = extraction(archive, Seq::empty());
            let entries = walk(archive).entries;
            is_complete(all) ==> {
                &&& all.files.len() == entries.len()
                &&& forall|i: int|
                    0 <= i < entries.len() ==> outcome(archive, #[trigger] entries[i], Seq::empty())
                        == Outcome::Written(all.files[i])
            }
        }),
{
    lemma_restore_everything(archive, walk(archive).entries, walk(archive).end);
}

/// The files that have one of the given names.
pub open spec fn with_names(files: Seq<RestoredFile>, names: Seq<Seq<char>>) -> Seq<RestoredFile> {
    files.filter(|file: RestoredFile| names.contains(file.name))
}

proof fn lemma_with_names_next(file: RestoredFile, more: Seq<RestoredFile>, names: Seq<Seq<char>>)
    ensures
        with_names(seq![file] + more, names) == (if names.contains(file.name) {
            seq![file] + with_names(more, names)
        } else {
            with_names(more, names)
        }),
{
    let pred = |file: RestoredFile| names.contains(file.name);
    Seq::filter_distributes_over_add(seq![file], more, pred);
    reveal_with_fuel(Seq::<_>::filter, 2);
    assert(seq![file].drop_last() =~= Seq::<RestoredFile>::empty());
    let first = seq![file].filter(pred);
    if names.contains(file.name) {
        assert(first =~= seq![file]);
    } else {
        assert(first =~= Seq::<RestoredFile>::empty());
        assert(first + with_names(more, names) =~= with_names(more, names));
    }
}

proof fn lemma_restore_selected(
    archive: Seq<u8>,
    entries: Seq<Entry>,
    end: Result<(), Malformed<Seq<u8>>>,
    only_files: Seq<Seq<char>>,
)
    requires
        only_files.len() > 0,
    ensures
        ({
            let all = restore(archive, entries, end, Seq::empty(), false);
            let selected = restore(archive, entries, end, only_files, false);
            is_complete(all) ==> is_complete(selected) && selected.files == with_names(
                all.files,
                only_files,
            )
        }),
    decreases entries.len(),
{
    let all = restore(archive, entries, end, Seq::empty(), false);
    let selected = restore(archive, entries, end, only_files, false);
    if entries.len() == 0 {
        assert(with_names(all.files, only_files) =~= Seq::<RestoredFile>::empty()) by {
            reveal(Seq::filter);
        }
    } else if is_complete(all) {
        let more = entries.drop_first();
        lemma_restore_selected(archive, more, end, only_files);
        lemma_restore_corrupted(archive, more, end, Seq::empty());
        lemma_restore_corrupted(archive, more, end, only_files);
        assert(outcome(archive, entries[0], Seq::empty()) is Written);
        let file = outcome(archive, entries[0], Seq::empty())->Written_0;
        lemma_with_names_next(
            file,
            restore(archive, more, end, Seq::empty(), false).files,
            only_files,
        );
    }
}

/// To ask for some files only gives those of all files that have the names
/// asked for, in the same order.
pub proof fn law_selection_picks_by_name(archive: Seq<u8>, only_files: Seq<Seq<char>>)
    requires
        only_files.len() > 0,
    ensures
        is_complete(extraction(archive, Seq::empty())) ==> is_complete(
            extraction(archive, only_files),
        ) && extraction(archive, only_files).files == with_names(
            extraction(archive, Seq::empty()).files,
            only_files,
        ),
{
    lemma_restore_selected(archive, walk(archive).entries, walk(archive).end, only_files);
}

/// Whether an entry counts where only some files are asked for: its name is
/// one of theirs, or is no name at all.
pub open spec fn is_wanted(entry: Entry, only_files: Seq<Seq<char>>) -> bool {
    !valid_utf8(entry.meta.name) || only_files.contains(decode_utf8(entry.meta.name))
}

/// The entries that count where only some files are asked for.
pub open spec fn wanted_entries(entries: Seq<Entry>, only_files: Seq<Seq<char>>) -> Seq<Entry> {
    entries.filter(|entry: Entry| is_wanted(entry, only_files))
}

proof fn lemma_wanted_next(entries: Seq<Entry>, only_files: Seq<Seq<char>>)
    requires
        entries.len() > 0,
    ensures
        wanted_entries(entries, only_files) == (if is_wanted(entries[0], only_files) {
            seq![entries[0]] + wanted_entries(entries.drop_first(), only_files)
        } else {
            wanted_entries(entries.drop_first(), only_files)
        }),
{
    let pred = |entry: Entry| is_wanted(entry, only_files);
    let head = seq![entries[0]];
    let more = wanted_entries(entries.drop_first(), only_files);
    Seq::filter_distributes_over_add(head, entries.drop_first(), pred);
    assert(head + entries.drop_first() =~= entries);
    reveal_with_fuel(Seq::<_>::filter, 2);
    assert(head.drop_last() =~= Seq::<Entry>::empty());
    let first = head.filter(pred);
    if is_wanted(entries[0], only_files) {
        assert(first =~= head);
    } else {
        assert(first =~= Seq::<Entry>::empty());
        assert(first + more =~= more);
    }
}

proof fn lemma_restore_wanted(
    archive: Seq<u8>,
    entries: Seq<Entry>,
    end: Result<(), Malformed<Seq<u8>>>,
    only_files: Seq<Seq<char>>,
    corrupted: bool,
)
    requires
        only_files.len() > 0,
    ensures
        restore(archive, entries, end, only_files, corrupted) == restore(
            archive,
            wanted_entries(entries, only_files),
            end,
            Seq::empty(),
            corrupted,
        ),
    decreases entries.len(),
{
    let wanted = wanted_entries(entries, only_files);
    if entries.len() == 0 {
        assert(wanted =~= entries) by {
            reveal(Seq::filter);
        }
    } else {
        let more = entries.drop_first();
        lemma_wanted_next(entries, only_files);
        lemma_restore_wanted(archive, more, end, only_files, corrupted);
        lemma_restore_wanted(archive, more, end, only_files, true);
        if is_wanted(entries[0], only_files) {
            assert(wanted[0] == entries[0]);
            assert(wanted.drop_first() =~= wanted_entries(more, only_files));
            assert(outcome(archive, entries[0], only_files) == outcome(
                archive,
                entries[0],
                Seq::empty(),
            ));
        }
    }
}

/// To ask for some files only is to extract all of what is left of an archive
/// without the entries of the others: their filters, their data and their
/// checksums do not matter.
pub proof fn law_selection_leaves_the_others_out(archive: Seq<u8>, only_files: Seq<Seq<char>>)
    requires
        only_files.len() > 0,
    ensures
        extraction(archive, only_files) == restore(
            archive,
            wanted_entries(walk(archive).entries, only_files),
            walk(archive).end,
            Seq::empty(),
            false,
        ),
{
    lemma_restore_wanted(archive, walk(archive).entries, walk(archive).end, only_files, false);
}

proof fn lemma_restore_completes(
    archive: Seq<u8>,
    entries: Seq<Entry>,
    end: Result<(), Malformed<Seq<u8>>>,
    only_files: Seq<Seq<char>>,
)
    requires
        end is Ok,
    ensures
        (forall|i: int|
            0 <= i < entries.len() ==> outcome(
                archive,
                #[trigger] entries[i],
                only_files,
            ) is Written) ==> is_complete(restore(archive, entries, end, only_files, false)),
    decreases entries.len(),
{
    if entries.len() > 0 && (forall|i: int|
        0 <= i < entries.len() ==> outcome(
            archive,
            #[trigger] entries[i],
            only_files,
        ) is Written) {
        let more = entries.drop_first();
        assert forall|i: int| 0 <= i < more.len() implies outcome(
            archive,
            #[trigger] more[i],
            only_files,
        ) is Written by {
            assert(more[i] == entries[i + 1]);
        }
        assert(outcome(archive, entries[0], only_files) is Written);
        lemma_restore_completes(archive, more, end, only_files);
        lemma_restore_corrupted(archive, more, end, only_files);
    }
}

/// Where each entry that is asked for can be read, one file comes out for each
/// of them, in the order of the walk, whatever the other entries hold.
pub proof fn law_selected_entries_come_out(archive: Seq<u8>, only_files: Seq<Seq<char>>)
    requires
        only_files.len() > 0,
        walk(archive).end is Ok,
    ensures
        ({
            let wanted = wanted_entries(walk(archive).entries, only_files);
            let selected = extraction(archive, only_files);
            (forall|i: int|
                0 <= i < wanted.len() ==> outcome(
                    archive,
                    #[trigger] wanted[i],
                    Seq::empty(),
                ) is Written) ==> {
                &&& is_complete(selected)
                &&& selected.files.len() == wanted.len()
                &&& forall|i: int|
                    0 <= i < wanted.len() ==> outcome(archive, #[trigger] wanted[i], Seq::empty())
                        == Outcome::Written(selected.files[i])
            }
        }),
{
    let wanted = wanted_entries(walk(archive).entries, only_files);
    law_selection_leaves_the_others_out(archive, only_files);
    lemma_restore_completes(archive, wanted, walk(archive).end, Seq::empty());
    lemma_restore_everything(archive, wanted, walk(archive).end);
}

proof fn lemma_restore_reports(
    archive: Seq<u8>,
    entries: Seq<Entry>,
    end: Result<(), Malformed<Seq<u8>>>,
    only_files: Seq<Seq<char>>,
)
    ensures
        ({
            let all = restore(archive, entries, end, only_files, false);
            is_complete(all) ==> (all.end is Ok <==> forall|i: int|
                0 <= i < all.files.len() ==> (#[trigger] all.files[i]).check != Check::Corrupted)
        }),
    decreases entries.len(),
{
    if entries.len() > 0 {
        let more = entries.drop_first();
        lemma_restore_reports(archive, more, end, only_files);
        lemma_restore_corrupted(archive, more, end, only_files);
        let all = restore(archive, entries, end, only_files, false);
        let rest = restore(archive, more, end, only_files, false);
        if let Outcome::Written(file) = outcome(archive, entries[0], only_files) {
            assert(all.files =~= seq![file] + rest.files);
            assert(all.files[0] == file);
            assert forall|i: int| 0 <= i < rest.files.len() implies #[trigger] rest.files[i]
                == all.files[i + 1] by {
            }
            if rest.end is Ok && file.check != Check::Corrupted {
                assert forall|i: int| 0 <= i < all.files.len() implies (
                #[trigger] all.files[i]).check != Check::Corrupted by {
                    if i > 0 {
                        assert(all.files[i] == rest.files[i - 1]);
                    }
                }
            }
        }
    }
}

/// An extraction that went through its archive is a success if and only if no
/// file that came out is corrupted.
pub proof fn law_corruption_is_reported(archive: Seq<u8>, only_files: Seq<Seq<char>>)
    ensures
        ({
            let all = extraction(archive, only_files);
            is_complete(all) ==> (all.end is Ok <==> forall|i: int|
                0 <= i < all.files.len() ==> (#[trigger] all.files[i]).check != Check::Corrupted)
        }),
{
    lemma_restore_reports(archive, walk(archive).entries, walk(archive).end, only_files);
}

} // verus!
