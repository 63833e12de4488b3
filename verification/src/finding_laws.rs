//! How the entries of an archive are found from its end on.
use vstd::prelude::*;

use crate::balance::{
    is_balanced,
    lemma_net_concat,
    lemma_opening_ignores,
    lemma_opening_passes,
    net_closings,
};
use crate::bytes::{CLOSE, OPEN};
use crate::malformed::Malformed;
use crate::meta::dict_meta;
use crate::walk::{last_entry, lemma_last_entry, opening, walk, Entry};

verus! {

/// How many more parentheses close than open is a matter of counting them.
pub proof fn law_parentheses_are_counted(s: Seq<u8>)
    ensures
        net_closings(s) == s.filter(|c: u8| c == 0x29).len() - s.filter(|c: u8| c == 0x28).len(),
    decreases s.len(),
{
    reveal(Seq::filter);
    if s.len() > 0 {
        law_parentheses_are_counted(s.drop_last());
    }
}

/// The parentheses in some bytes pair up if as many close as open, and no fewer
/// close than open in any of their ends.
pub proof fn law_balanced_means_paired(s: Seq<u8>)
    requires
        s.len() < u32::MAX,
    ensures
        is_balanced(s) <==> {
            &&& s.filter(|c: u8| c == 0x29).len() == s.filter(|c: u8| c == 0x28).len()
            &&& forall|k: int|
                0 <= k <= s.len() ==> (#[trigger] s.skip(k)).filter(|c: u8| c == 0x29).len()
                    >= s.skip(k).filter(|c: u8| c == 0x28).len()
        },
{
    law_parentheses_are_counted(s);
    assert forall|k: int| 0 <= k <= s.len() implies {
        let t = #[trigger] s.skip(k);
        &&& net_closings(t) == t.filter(|c: u8| c == 0x29).len() - t.filter(
            |c: u8| c == 0x28,
        ).len()
        &&& t.filter(|c: u8| c == 0x29).len() <= s.len()
    } by {
        law_parentheses_are_counted(s.skip(k));
        s.skip(k).lemma_filter_len(|c: u8| c == 0x29);
    }
}

/// What is known of the bytes searched when the search from a depth has ended.
proof fn lemma_opening_ends(s: Seq<u8>, depth: nat)
    requires
        1 <= depth <= u32::MAX,
    ensures
        match opening(s, depth) {
            Ok(open) => {
                &&& open < s.len()
                &&& s[open as int] == OPEN
                &&& forall|k: int|
                    open < k <= s.len() ==> 1 <= depth + #[trigger] net_closings(s.skip(k))
                        <= u32::MAX
                &&& depth + net_closings(s.skip(open as int + 1)) == 1
            },
            Err(e) => {
                ||| e is TooDeep && exists|k: int|
                    0 <= k <= s.len() && depth + #[trigger] net_closings(s.skip(k)) > u32::MAX
                ||| e is NoOpeningParenthesis && forall|k: int|
                    0 <= k <= s.len() ==> 1 <= depth + #[trigger] net_closings(s.skip(k))
                        <= u32::MAX
            },
        },
    decreases s.len(),
{
    let end = s.skip(s.len() as int);
    assert(end =~= Seq::<u8>::empty());
    assert(net_closings(end) == 0);
    if s.len() > 0 {
        let t = s.drop_last();
        let step: int = if s.last() == CLOSE {
            1
        } else if s.last() == OPEN {
            -1
        } else {
            0
        };
        assert forall|k: int| 0 <= k <= t.len() implies #[trigger] net_closings(s.skip(k))
            == net_closings(t.skip(k)) + step by {
            assert(s.skip(k).drop_last() =~= t.skip(k));
            assert(s.skip(k).last() == s.last());
        }
        let last = s.skip(s.len() - 1);
        assert(t.skip(t.len() as int) =~= Seq::<u8>::empty());
        assert(net_closings(t.skip(t.len() as int)) == 0);
        assert(net_closings(last) == step);
        if s.last() == CLOSE && depth >= u32::MAX {
            assert(depth + net_closings(s.skip(s.len() - 1)) > u32::MAX);
        } else if s.last() == OPEN && depth <= 1 {
            assert(s.skip(s.len() - 1 + 1) =~= end);
        } else {
            let next = (depth + step) as nat;
            lemma_opening_ends(t, next);
            match opening(t, next) {
                Ok(open) => {
                    assert forall|k: int| open < k <= s.len() implies 1 <= depth
                        + #[trigger] net_closings(s.skip(k)) <= u32::MAX by {
                        if k <= t.len() {
                            assert(1 <= next + net_closings(t.skip(k)) <= u32::MAX);
                        } else {
                            assert(s.skip(k) =~= end);
                        }
                    }
                    let k = open as int + 1;
                    assert(net_closings(s.skip(k)) == net_closings(t.skip(k)) + step);
                },
                Err(e) => {
                    if e is TooDeep {
                        let k = choose|k: int|
                            0 <= k <= t.len() && next + #[trigger] net_closings(t.skip(k))
                                > u32::MAX;
                        assert(depth + net_closings(s.skip(k)) > u32::MAX);
                    } else {
                        assert forall|k: int| 0 <= k <= s.len() implies 1 <= depth
                            + #[trigger] net_closings(s.skip(k)) <= u32::MAX by {
                            if k <= t.len() {
                                assert(1 <= next + net_closings(t.skip(k)) <= u32::MAX);
                            } else {
                                assert(s.skip(k) =~= end);
                            }
                        }
                    }
                },
            }
        }
    }
}

/// A closing parenthesis at the end is matched by the last opening one before
/// which as many parentheses close as open, counted from the end; where there is
/// none, none matches it.
pub proof fn law_parentheses_match(s: Seq<u8>)
    ensures
        forall|open: int|
            #![trigger s[open]]
            0 <= open < s.len() ==> (opening(s, 1) == Ok::<nat, Malformed<Seq<u8>>>(open as nat)
                <==> {
                &&& s[open] == 0x28
                &&& net_closings(s.skip(open + 1)) == 0
                &&& forall|k: int|
                    open < k <= s.len() ==> 0 <= #[trigger] net_closings(s.skip(k)) < u32::MAX
            }),
        opening(s, 1) matches Ok(open) ==> open < s.len(),
        opening(s, 1) == Err::<nat, Malformed<Seq<u8>>>(Malformed::NoOpeningParenthesis) <==> (
        forall|k: int|
            0 <= k <= s.len() ==> 0 <= #[trigger] net_closings(s.skip(k)) < u32::MAX),
        opening(s, 1) matches Err(e) ==> e is NoOpeningParenthesis || e is TooDeep,
{
    lemma_opening_ends(s, 1);
    assert forall|open: int|
        #![trigger s[open]]
        0 <= open < s.len() && s[open] == 0x28 && net_closings(s.skip(open + 1)) == 0 && (
        forall|k: int|
            open < k <= s.len() ==> 0 <= #[trigger] net_closings(s.skip(k))
                < u32::MAX) implies opening(s, 1) == Ok::<nat, Malformed<Seq<u8>>>(
        open as nat,
    ) by {
        let front = s.take(open + 1);
        let tail = s.skip(open + 1);
        assert(front + tail =~= s);
        assert forall|k: int| 0 <= k <= tail.len() implies 1 <= 1 + #[trigger] net_closings(
            tail.skip(k),
        ) <= u32::MAX by {
            assert(tail.skip(k) =~= s.skip(open + 1 + k));
            assert(0 <= net_closings(s.skip(open + 1 + k)) < u32::MAX);
        }
        lemma_opening_passes(front, tail, 1);
        assert(front.last() == 0x28);
    }
    if forall|k: int| 0 <= k <= s.len() ==> 0 <= #[trigger] net_closings(s.skip(k)) < u32::MAX {
        if let Ok(open) = opening(s, 1) {
            assert(net_closings(s.skip(open as int + 1)) == 0);
            let with = s.skip(open as int);
            assert(with =~= seq![OPEN] + s.skip(open as int + 1));
            lemma_net_concat(seq![OPEN], s.skip(open as int + 1));
            assert(seq![OPEN].drop_last() =~= Seq::<u8>::empty());
            assert(net_closings(seq![OPEN].drop_last()) == 0);
            assert(net_closings(s.skip(open as int)) == -1);
        }
    }
}

/// Data and a dictionary between parentheses behind it are found as an entry:
/// its data ends before the opening parenthesis. Where the dictionary cannot be
/// read, or asks for more data than there is, that is the problem found.
pub proof fn law_trailers_are_found(front: Seq<u8>, dict: Seq<u8>)
    requires
        is_balanced(dict),
    ensures
        ({
            let found = last_entry(front + (seq![0x28u8] + dict + seq![0x29u8]));
            match dict_meta(dict) {
                Ok(meta) => if meta.size <= front.len() {
                    &&& found is Ok
                    &&& found->Ok_0.meta == meta
                    &&& found->Ok_0.offset == front.len() - meta.size
                } else {
                    found == Err::<Entry, Malformed<Seq<u8>>>(Malformed::SizeTooLarge)
                },
                Err(e) => found == Err::<Entry, Malformed<Seq<u8>>>(e),
            }
        }),
{
    let all = front + (seq![0x28u8] + dict + seq![0x29u8]);
    let opened = front + seq![0x28u8];
    assert(all.last() == CLOSE);
    assert(all.drop_last() =~= opened + dict);
    lemma_opening_ignores(opened, dict);
    assert(opened.last() == OPEN);
    assert(opened.len() == front.len() + 1);
    assert(all.subrange(front.len() as int + 1, all.len() - 1) =~= dict);
}

/// Bytes that do not end in a closing parenthesis end in no entry, and where the
/// closing parenthesis has no match, that is the problem found.
pub proof fn law_entries_end_in_parentheses(archive: Seq<u8>)
    requires
        archive.len() > 0,
    ensures
        archive.last() != 0x29 ==> last_entry(archive) == Err::<Entry, Malformed<Seq<u8>>>(
            Malformed::NoClosingParenthesis,
        ),
        archive.last() == 0x29 ==> (opening(archive.drop_last(), 1) matches Err(e) ==> last_entry(
            archive,
        ) == Err::<Entry, Malformed<Seq<u8>>>(e)),
{
}

/// A walk finds the last entry of an archive and goes on with what precedes its
/// data, up to the start of the archive or to the first problem.
pub proof fn law_walks_go_back(archive: Seq<u8>)
    ensures
        archive.len() == 0 ==> walk(archive).entries.len() == 0 && walk(archive).end is Ok,
        archive.len() > 0 ==> match last_entry(archive) {
            Err(e) => walk(archive).entries.len() == 0 && walk(archive).end == Err::<
                (),
                Malformed<Seq<u8>>,
            >(e),
            Ok(entry) => {
                let before = walk(archive.take(entry.offset as int));
                &&& entry.offset + entry.meta.size < archive.len()
                &&& walk(archive).entries.len() == 1 + before.entries.len()
                &&& walk(archive).entries[0] == entry
                &&& walk(archive).entries.drop_first() == before.entries
                &&& walk(archive).end == before.end
            },
        },
{
    if archive.len() > 0 && last_entry(archive) is Ok {
        lemma_last_entry(archive);
        let entry = last_entry(archive)->Ok_0;
        let before = walk(archive.take(entry.offset as int));
        assert((seq![entry] + before.entries).drop_first() =~= before.entries);
    }
}

} // verus!
