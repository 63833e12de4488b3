//! What holds of sequences of writes and of sequences of reads.
use vstd::prelude::*;

use crate::stream::{allowed, has_written, next_read, CountingWriter};

verus! {

/// The sum of some numbers.
pub open spec fn total(amounts: Seq<nat>) -> nat
    decreases amounts.len(),
{
    if amounts.len() == 0 {
        0
    } else {
        total(amounts.drop_last()) + amounts.last()
    }
}

/// Some buffers, one after the other.
pub open spec fn joined(bufs: Seq<Seq<u8>>) -> Seq<u8>
    decreases bufs.len(),
{
    if bufs.len() == 0 {
        Seq::empty()
    } else {
        joined(bufs.drop_last()) + bufs.last()
    }
}

/// Whatever is written through a writer, it has counted the sum of what the
/// writer inside took since it was new. `taken` holds, for each call in turn,
/// what was taken: nothing where a write failed, and nothing in a flush.
pub proof fn law_count_is_the_sum<W>(writers: Seq<CountingWriter<W>>, taken: Seq<nat>)
    requires
        writers.len() == taken.len() + 1,
        writers[0].bytes_written == 0,
        forall|i: int|
            0 <= i < taken.len() ==> #[trigger] writers[i + 1].bytes_written
                == writers[i].bytes_written + taken[i],
    ensures
        writers.last().bytes_written == total(taken),
    decreases taken.len(),
{
    if taken.len() > 0 {
        let earlier = writers.drop_last();
        let before = taken.drop_last();
        assert forall|i: int| 0 <= i < before.len() implies #[trigger] earlier[i + 1].bytes_written
            == earlier[i].bytes_written + before[i] by {
            assert(earlier[i + 1] == writers[i + 1]);
        }
        law_count_is_the_sum(earlier, before);
        assert(writers[taken.len() - 1 + 1] == writers.last());
    }
}

/// After any writes the vector inside a writer holds what it held and all that
/// was written, and the writer has counted the latter.
pub proof fn law_writes_add_up(writers: Seq<CountingWriter<Vec<u8>>>, bufs: Seq<Seq<u8>>)
    requires
        writers.len() == bufs.len() + 1,
        writers[0].bytes_written == 0,
        forall|i: int|
            0 <= i < bufs.len() ==> has_written(writers[i], bufs[i], #[trigger] writers[i + 1]),
    ensures
        writers.last().inner@ == writers[0].inner@ + joined(bufs),
        writers.last().bytes_written == joined(bufs).len(),
    decreases bufs.len(),
{
    if bufs.len() == 0 {
        assert(writers[0].inner@ + joined(bufs) =~= writers[0].inner@);
    } else {
        let earlier = writers.drop_last();
        let before = bufs.drop_last();
        assert forall|i: int| 0 <= i < before.len() implies has_written(
            earlier[i],
            before[i],
            #[trigger] earlier[i + 1],
        ) by {
            assert(earlier[i + 1] == writers[i + 1]);
        }
        law_writes_add_up(earlier, before);
        assert(writers[bufs.len() - 1 + 1] == writers.last());
        assert(writers[0].inner@ + joined(before) + bufs.last() =~= writers[0].inner@ + joined(
            bufs,
        ));
    }
}

/// A read through a bounded reader: how much was asked for, and what the reader
/// inside answered, which is nothing where it failed.
pub struct ReadCall {
    pub wanted: nat,
    pub answer: Option<Seq<u8>>,
}

/// Whether the answers to `calls` are those of a reader inside that still has
/// `stream`, where `left` bytes are left: each is the next part of the stream
/// and no longer than what may be asked for. An error takes nothing off what is
/// left.
pub open spec fn are_answered(stream: Seq<u8>, left: nat, calls: Seq<ReadCall>) -> bool
    decreases calls.len(),
{
    calls.len() > 0 ==> match calls[0].answer {
        None => are_answered(stream, left, calls.drop_first()),
        Some(bytes) => {
            &&& bytes.len() <= allowed(calls[0].wanted, left)
            &&& bytes.is_prefix_of(stream)
            &&& are_answered(
                stream.skip(bytes.len() as int),
                (left - bytes.len()) as nat,
                calls.drop_first(),
            )
        },
    }
}

/// The bytes that some reads gave, one after the other.
pub open spec fn delivered(calls: Seq<ReadCall>) -> Seq<u8>
    decreases calls.len(),
{
    if calls.len() == 0 {
        Seq::empty()
    } else {
        match calls[0].answer {
            None => delivered(calls.drop_first()),
            Some(bytes) => bytes + delivered(calls.drop_first()),
        }
    }
}

/// How much is left of a bound after some reads.
pub open spec fn left_after(left: nat, calls: Seq<ReadCall>) -> int
    decreases calls.len(),
{
    if calls.len() == 0 {
        left as int
    } else {
        match calls[0].answer {
            None => left_after(left, calls.drop_first()),
            Some(bytes) => left_after((left - bytes.len()) as nat, calls.drop_first()),
        }
    }
}

/// Whatever the reader inside answers, a bounded reader delivers a prefix of
/// its stream, at most the bound in all, and knows what is left.
pub proof fn law_reads_stay_within_the_bound(stream: Seq<u8>, bound: nat, calls: Seq<ReadCall>)
    requires
        are_answered(stream, bound, calls),
    ensures
        delivered(calls).is_prefix_of(stream),
        delivered(calls).len() <= bound,
        left_after(bound, calls) == bound - delivered(calls).len(),
    decreases calls.len(),
{
    if calls.len() > 0 {
        let more = calls.drop_first();
        match calls[0].answer {
            None => {
                law_reads_stay_within_the_bound(stream, bound, more);
            },
            Some(bytes) => {
                let rest = stream.skip(bytes.len() as int);
                law_reads_stay_within_the_bound(rest, (bound - bytes.len()) as nat, more);
                assert(bytes + rest =~= stream);
                assert(bytes + delivered(more) =~= stream.subrange(
                    0,
                    bytes.len() as int + delivered(more).len(),
                ));
            },
        }
    }
}

/// What reads of the given lengths from bytes in memory deliver in all, where
/// `left` may be read of what remains.
pub open spec fn all_reads(remaining: Seq<u8>, left: nat, wanted: Seq<nat>) -> Seq<u8>
    decreases wanted.len(),
{
    if wanted.len() == 0 {
        Seq::empty()
    } else {
        let bytes = next_read(remaining, left, wanted[0]);
        bytes + all_reads(
            remaining.skip(bytes.len() as int),
            (left - bytes.len()) as nat,
            wanted.drop_first(),
        )
    }
}

/// Reads from bytes in memory deliver as much of them as was asked for in all,
/// up to the bound.
pub proof fn law_reads_add_up(remaining: Seq<u8>, bound: nat, wanted: Seq<nat>)
    ensures
        all_reads(remaining, bound, wanted) == next_read(remaining, bound, total(wanted)),
    decreases wanted.len(),
{
    if wanted.len() == 0 {
        assert(next_read(remaining, bound, 0) =~= Seq::<u8>::empty());
    } else {
        let more = wanted.drop_first();
        let bytes = next_read(remaining, bound, wanted[0]);
        let rest = remaining.skip(bytes.len() as int);
        let left = (bound - bytes.len()) as nat;
        law_reads_add_up(rest, left, more);
        lemma_total_first(wanted);
        assert(bytes + next_read(rest, left, total(more)) =~= next_read(
            remaining,
            bound,
            total(wanted),
        ));
    }
}

proof fn lemma_total_first(amounts: Seq<nat>)
    requires
        amounts.len() > 0,
    ensures
        total(amounts) == amounts[0] + total(amounts.drop_first()),
    decreases amounts.len(),
{
    if amounts.len() == 1 {
        assert(amounts.drop_last() =~= Seq::<nat>::empty());
        assert(amounts.drop_first() =~= Seq::<nat>::empty());
    } else {
        lemma_total_first(amounts.drop_last());
        assert(amounts.drop_last().drop_first() =~= amounts.drop_first().drop_last());
    }
}

} // verus!
