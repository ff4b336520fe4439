//! Framing of segments in a byte buffer, and a reader that counts what it
//! hands out.

use crate::chunk::ReadError;
use crate::segment;
use crate::segment::{Segment, SegmentRead};
use vstd::prelude::*;

verus! {

#[verifier::external_type_specification]
#[verifier::external_body]
pub struct ExIoError(std::io::Error);

/// A (de)serializer of SUTP segments: it wraps `Segment::read_from` and
/// `Segment::write_to`.
#[derive(Copy, Clone, Debug, Hash, Eq, PartialEq, Structural)]
pub struct SutpCodec;

impl SutpCodec {
    /// Decodes the segment that `src` holds.
    ///
    /// A segment that is not complete yet gives `Ok(None)` and leaves `src`
    /// alone; a decoded segment consumes the whole buffer; any other read
    /// error is returned, and `src` is left alone.
    pub fn decode(&mut self, src: &mut Vec<u8>) -> (r: Result<Option<Segment>, ReadError>)
        requires
            !(segment::spec_read_segment(old(src)@) is Stuck),
        ensures
            match segment::spec_read_segment(old(src)@) {
                SegmentRead::Segment(v) => r matches Ok(Some(seg)) && seg@ == v && final(src)@
                    == Seq::<u8>::empty(),
                SegmentRead::Eof => r matches Ok(None) && final(src)@ == old(src)@,
                SegmentRead::SackLength => r matches Err(ReadError::SackLength) && final(src)@
                    == old(src)@,
                SegmentRead::CompressionListLength => r matches Err(
                    ReadError::CompressionListLength,
                ) && final(src)@ == old(src)@,
                SegmentRead::CrcMismatch(got, wanted) => r matches Err(
                    ReadError::CrcMismatch { got: g, wanted: w },
                ) && g == got && w == wanted && final(src)@ == old(src)@,
                SegmentRead::Stuck => false,
            },
    {
        match Segment::read_from(src.as_slice()) {
            Ok(segment) => {
                src.clear();
                Ok(Some(segment))
            },
            Err(ReadError::UnexpectedEof) => Ok(None),
            Err(e) => Err(e),
        }
    }

    /// Encodes `item`, with its CRC-32 sum, at the end of `dst`. Writing to
    /// memory does not fail.
    pub fn encode(&mut self, item: Segment, dst: &mut Vec<u8>) -> (r: Result<(), std::io::Error>)
        requires
            segment::is_writable(item@),
        ensures
            r is Ok,
            final(dst)@ == old(dst)@ + segment::segment_bytes(item@),
    {
        item.write_to(dst);
        Ok(())
    }
}

/// A wrapper around a reader that counts how many bytes were read.
#[derive(Debug)]
pub struct CountingReader<R> {
    count: usize,
    reader: R,
}

impl<R> CountingReader<R> {
    /// The number of bytes read so far.
    pub closed spec fn spec_count(&self) -> nat {
        self.count as nat
    }

    /// The wrapped reader.
    pub closed spec fn spec_reader(&self) -> R {
        self.reader
    }

    /// Wraps `reader`; nothing has been read yet.
    pub fn new(reader: R) -> (c: Self)
        ensures
            c.spec_count() == 0,
            c.spec_reader() == reader,
    {
        CountingReader { count: 0, reader: reader }
    }

    /// The number of bytes read so far.
    pub fn count(&self) -> (n: usize)
        ensures
            n == self.spec_count(),
    {
        self.count
    }

    /// Counts the outcome `read` of a read from the wrapped reader, and
    /// returns it: a successful read of `n` bytes adds `n` to the count, a
    /// failed one counts nothing.
    pub fn count_read(&mut self, read: Result<usize, std::io::Error>) -> (r: Result<
        usize,
        std::io::Error,
    >)
        requires
            read matches Ok(n) ==> old(self).spec_count() + n <= usize::MAX,
        ensures
            r == read,
            final(self).spec_reader() == old(self).spec_reader(),
            match read {
                Ok(n) => final(self).spec_count() == old(self).spec_count() + n,
                Err(_) => final(self).spec_count() == old(self).spec_count(),
            },
    {
        match read {
            Ok(n) => {
                self.count = self.count + n;
                Ok(n)
            },
            Err(e) => Err(e),
        }
    }
}

#[verifier::external_type_specification]
#[verifier::external_body]
#[verifier::reject_recursive_types(T)]
pub struct ExCursor<T>(std::io::Cursor<T>);

/// The bytes of an in-memory cursor from its position to the end of its
/// buffer: what is left to read.
pub uninterp spec fn cursor_rest(c: std::io::Cursor<Vec<u8>>) -> Seq<u8>;

/// The smaller of two lengths.
pub open spec fn min_len(a: nat, b: nat) -> nat {
    if a < b {
        a
    } else {
        b
    }
}

/// Reads into `buf` from an in-memory cursor.
///
/// Calls `std::io::Read::read` on the cursor. Reading from an in-memory
/// buffer is claimed never to fail, to copy as many of the bytes left as
/// `buf` has room for into the front of `buf`, and to advance the position
/// past them. What becomes of the rest of `buf` is not stated.
#[verifier::external_body]
fn read_cursor(reader: &mut std::io::Cursor<Vec<u8>>, buf: &mut [u8]) -> (r: Result<
    usize,
    std::io::Error,
>)
    ensures
        r is Ok,
        r->Ok_0 == min_len(old(buf)@.len(), cursor_rest(*old(reader)).len()),
        final(buf)@.len() == old(buf)@.len(),
        final(buf)@.take(r->Ok_0 as int) == cursor_rest(*old(reader)).take(r->Ok_0 as int),
        cursor_rest(*final(reader)) == cursor_rest(*old(reader)).skip(r->Ok_0 as int),
{
    std::io::Read::read(reader, buf)
}

impl CountingReader<std::io::Cursor<Vec<u8>>> {
    /// Reads into `buf` from the wrapped cursor, and counts the bytes read:
    /// as many of the bytes left as `buf` has room for are copied to its
    /// front, and the reading never fails.
    pub fn read(&mut self, buf: &mut [u8]) -> (r: Result<usize, std::io::Error>)
        requires
            old(self).spec_count() + old(buf)@.len() <= usize::MAX,
        ensures
            r is Ok,
            ({
                let n = r->Ok_0;
                let rest = cursor_rest(old(self).spec_reader());
                &&& n == min_len(old(buf)@.len(), rest.len())
                &&& final(buf)@.len() == old(buf)@.len()
                &&& final(buf)@.take(n as int) == rest.take(n as int)
                &&& cursor_rest(final(self).spec_reader()) == rest.skip(n as int)
                &&& final(self).spec_count() == old(self).spec_count() + n
            }),
    {
        let read = read_cursor(&mut self.reader, buf);
        self.count_read(read)
    }
}

} // verus!
