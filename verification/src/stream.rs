//! A writer that counts what it is given, and a reader that stops early.
use vstd::prelude::*;

use crate::bytes::{push_bytes, rest};

verus! {

/// Wrapper around a writer that counts all bytes written.
pub struct CountingWriter<W> {
    pub inner: W,
    pub bytes_written: u64,
}

impl<W> CountingWriter<W> {
    /// A writer over `inner` through which nothing has been written yet.
    pub fn new(inner: W) -> (writer: Self)
        ensures
            writer.inner == inner,
            writer.bytes_written == 0,
    {
        CountingWriter { inner, bytes_written: 0 }
    }

    /// How many bytes have been written.
    pub fn bytes_written(&self) -> (count: u64)
        ensures
            count == self.bytes_written,
    {
        self.bytes_written
    }

    /// Counts `written` bytes that `inner` has taken.
    pub fn wrote(&mut self, written: usize)
        requires
            old(self).bytes_written + written <= u64::MAX,
        ensures
            final(self).bytes_written == old(self).bytes_written + written,
            final(self).inner == old(self).inner,
    {
        self.bytes_written = self.bytes_written + written as u64;
    }
}

/// Whether `after` is `before` with `buf` written to it and counted.
pub open spec fn has_written(
    before: CountingWriter<Vec<u8>>,
    buf: Seq<u8>,
    after: CountingWriter<Vec<u8>>,
) -> bool {
    &&& after.inner@ == before.inner@ + buf
    &&& after.bytes_written == before.bytes_written + buf.len()
}

impl CountingWriter<Vec<u8>> {
    /// Nothing has been counted that `inner` does not hold.
    pub open spec fn wf(self) -> bool {
        self.bytes_written <= self.inner@.len()
    }

    /// Writes as much of `buf` as `inner` takes, which is all of it, and says
    /// how much that was.
    pub fn write(&mut self, buf: &[u8]) -> (written: usize)
        requires
            old(self).wf(),
        ensures
            final(self).wf(),
            written == buf@.len(),
            has_written(*old(self), buf@, *final(self)),
            final(self).inner@ == old(self).inner@ + buf@,
            final(self).bytes_written == old(self).bytes_written + buf@.len(),
    {
        push_bytes(&mut self.inner, buf);
        let held: usize = self.inner.len();
        assert(self.bytes_written + buf@.len() <= held);
        self.wrote(buf.len());
        buf.len()
    }

    /// Writes all of `buf`.
    pub fn write_all(&mut self, buf: &[u8])
        requires
            old(self).wf(),
        ensures
            final(self).wf(),
            has_written(*old(self), buf@, *final(self)),
            final(self).inner@ == old(self).inner@ + buf@,
            final(self).bytes_written == old(self).bytes_written + buf@.len(),
    {
        self.write(buf);
    }
}

/// Bytes in memory, read from a position on.
pub struct ByteSource<'b> {
    pub bytes: &'b [u8],
    pub position: usize,
}

impl<'b> ByteSource<'b> {
    /// What is still to be read.
    pub open spec fn remaining(self) -> Seq<u8> {
        rest(self.bytes@, self.position as int)
    }

    /// A source at the start of `bytes`.
    pub fn new(bytes: &'b [u8]) -> (source: Self)
        ensures
            source.bytes == bytes,
            source.position == 0,
    {
        ByteSource { bytes, position: 0 }
    }

    /// Goes on from `position`.
    pub fn seek(&mut self, position: usize)
        ensures
            final(self).bytes == old(self).bytes,
            final(self).position == position,
    {
        self.position = position;
    }

    /// Reads the next `wanted` bytes, or all that remain where there are fewer.
    pub fn read(&mut self, wanted: usize) -> (bytes: Vec<u8>)
        ensures
            ({
                let n = vstd::math::min(wanted as int, old(self).remaining().len() as int);
                &&& bytes@ == old(self).remaining().take(n)
                &&& final(self).bytes == old(self).bytes
                &&& final(self).position == old(self).position + n
            }),
            old(self).position <= old(self).bytes@.len() ==> bytes@ == old(self).bytes@.subrange(
                old(self).position as int,
                vstd::math::min(old(self).position + wanted, old(self).bytes@.len() as int),
            ),
            old(self).position > old(self).bytes@.len() ==> bytes@.len() == 0,
    {
        let mut taken: Vec<u8> = Vec::new();
        if self.position < self.bytes.len() {
            let available: usize = self.bytes.len() - self.position;
            let n: usize = if wanted < available {
                wanted
            } else {
                available
            };
            push_bytes(&mut taken, &self.bytes[self.position..self.position + n]);
            assert(taken@ =~= self.remaining().take(n as int));
            self.position = self.position + n;
        } else {
            assert(taken@ =~= self.remaining().take(0));
        }
        taken
    }
}

/// How many bytes may be asked of the reader inside where `wanted` are asked
/// for and `left` are left.
pub open spec fn allowed(wanted: nat, left: nat) -> nat {
    if wanted > left {
        left
    } else {
        wanted
    }
}

/// What a read of `wanted` bytes gives where `left` are left and `remaining` is
/// what the reader inside still has.
pub open spec fn next_read(remaining: Seq<u8>, left: nat, wanted: nat) -> Seq<u8> {
    if allowed(wanted, left) < remaining.len() {
        remaining.take(allowed(wanted, left) as int)
    } else {
        remaining
    }
}

/// Wrapper around a reader that reads no more than a given number of bytes.
pub struct BoundedReader<'a, R> {
    pub inner: &'a mut R,
    pub bytes_left: usize,
}

impl<'a, R> BoundedReader<'a, R> {
    /// A reader over the next `bytes_to_read` bytes of `inner`.
    pub fn new(inner: &'a mut R, bytes_to_read: usize) -> (reader: Self)
        ensures
            *reader.inner == *old(inner),
            *final(reader.inner) == *final(inner),
            reader.bytes_left == bytes_to_read,
    {
        BoundedReader { inner, bytes_left: bytes_to_read }
    }

    /// How much of a buffer of `wanted` bytes may be handed to `inner`.
    pub fn limit(&self, wanted: usize) -> (count: usize)
        ensures
            count == allowed(wanted as nat, self.bytes_left as nat),
            count == vstd::math::min(wanted as int, self.bytes_left as int),
    {
        if wanted > self.bytes_left {
            self.bytes_left
        } else {
            wanted
        }
    }

    /// Takes `bytes_read` bytes that `inner` gave off what is left.
    pub fn took(&mut self, bytes_read: usize)
        requires
            bytes_read <= old(self).bytes_left,
        ensures
            final(self).bytes_left == old(self).bytes_left - bytes_read,
            *final(self).inner == *old(self).inner,
            *final(final(self).inner) == *final(old(self).inner),
    {
        self.bytes_left = self.bytes_left - bytes_read;
    }
}

impl<'a, 'b> BoundedReader<'a, ByteSource<'b>> {
    /// Reads the next `wanted` bytes, or fewer where the bound or the end of
    /// the source comes first.
    pub fn read(&mut self, wanted: usize) -> (bytes: Vec<u8>)
        ensures
            bytes@ == next_read(
                old(self).inner.remaining(),
                old(self).bytes_left as nat,
                wanted as nat,
            ),
            ({
                let source = *old(self).inner;
                let n = vstd::math::min(
                    vstd::math::min(wanted as int, old(self).bytes_left as int),
                    source.bytes@.len() - source.position,
                );
                source.position <= source.bytes@.len() ==> bytes@ == source.bytes@.subrange(
                    source.position as int,
                    source.position + n,
                )
            }),
            final(self).bytes_left == old(self).bytes_left - bytes@.len(),
            (*final(self).inner).bytes == old(self).inner.bytes,
            (*final(self).inner).position == old(self).inner.position + bytes@.len(),
            *final(final(self).inner) == *final(old(self).inner),
    {
        let count: usize = self.limit(wanted);
        let ghost remaining = self.inner.remaining();
        let bytes = self.inner.read(count);
        assert(remaining.take(remaining.len() as int) =~= remaining);
        self.took(bytes.len());
        bytes
    }

    /// Reads up to the bound, or up to the end of the source where that comes
    /// first.
    pub fn read_to_end(&mut self) -> (bytes: Vec<u8>)
        ensures
            bytes@ == next_read(
                old(self).inner.remaining(),
                old(self).bytes_left as nat,
                old(self).bytes_left as nat,
            ),
            ({
                let source = *old(self).inner;
                let n = vstd::math::min(
                    old(self).bytes_left as int,
                    source.bytes@.len() - source.position,
                );
                source.position <= source.bytes@.len() ==> bytes@ == source.bytes@.subrange(
                    source.position as int,
                    source.position + n,
                )
            }),
            final(self).bytes_left == old(self).bytes_left - bytes@.len(),
            (*final(self).inner).bytes == old(self).inner.bytes,
            (*final(self).inner).position == old(self).inner.position + bytes@.len(),
            *final(final(self).inner) == *final(old(self).inner),
    {
        let wanted: usize = self.bytes_left;
        self.read(wanted)
    }
}

} // verus!
