//! Buffered XML Reader
//!
//! Reads XML from any source implementing `Read`, using an internal buffer.

use std::io::Read;
use vstd::prelude::*;

verus! {

/// An I/O error of `std::io`.
#[verifier::external_type_specification]
#[verifier::external_body]
pub struct ExIoError(std::io::Error);

/// `Read::read` into `buf[start..]`: the bytes before `start` and the buffer's length
/// are untouched. The count a success returns is left unsaid: that it stays within the
/// room is a duty the `Read` documentation puts on each implementation, so callers test
/// it. What was read comes from the source and is not stated.
#[verifier::external_body]
fn read_into<R: Read>(reader: &mut R, buf: &mut Vec<u8>, start: usize) -> (r: Result<usize, std::io::Error>)
    requires
        start <= old(buf)@.len(),
    ensures
        final(buf)@.len() == old(buf)@.len(),
        final(buf)@.subrange(0, start as int) == old(buf)@.subrange(0, start as int),
{
    reader.read(&mut buf[start..])
}

/// `Read::read_to_end`: everything read is appended to `out`, which keeps what it held
/// (also when an error stops the reading); a success returns the number appended. What
/// was read comes from the source and is not stated.
#[verifier::external_body]
fn read_rest<R: Read>(reader: &mut R, out: &mut Vec<u8>) -> (r: Result<usize, std::io::Error>)
    ensures
        final(out)@.len() >= old(out)@.len(),
        final(out)@.subrange(0, old(out)@.len() as int) == old(out)@,
        r matches Ok(n) ==> final(out)@.len() == old(out)@.len() + n,
{
    reader.read_to_end(out)
}

/// Buffered XML reader for streaming input
pub struct BufferedReader<R> {
    reader: R,
    buffer: Vec<u8>,
    pos: usize,
    end: usize,
    eof: bool,
}

impl<R: Read> BufferedReader<R> {
    /// The bytes read and not consumed yet.
    pub closed spec fn spec_buffered(&self) -> Seq<u8> {
        self.buffer@.subrange(self.pos as int, self.end as int)
    }

    /// Whether the source has reported its end.
    pub closed spec fn spec_eof(&self) -> bool {
        self.eof
    }

    /// The buffer's size.
    pub closed spec fn spec_capacity(&self) -> nat {
        self.buffer@.len()
    }

    /// The unconsumed bytes lie within the buffer.
    pub closed spec fn wf(&self) -> bool {
        self.pos <= self.end <= self.buffer@.len()
    }

    /// Create a new buffered reader (8 KiB buffer)
    pub fn new(reader: R) -> (r: Self)
        ensures
            r.wf(),
            r.spec_buffered() == Seq::<u8>::empty(),
            !r.spec_eof(),
            r.spec_capacity() == 8192,
    {
        Self::with_capacity(reader, 8192)
    }

    /// Create a new buffered reader with specified buffer capacity
    pub fn with_capacity(reader: R, capacity: usize) -> (r: Self)
        ensures
            r.wf(),
            r.spec_buffered() == Seq::<u8>::empty(),
            !r.spec_eof(),
            r.spec_capacity() == capacity,
    {
        let r = BufferedReader { reader, buffer: vec![0u8; capacity], pos: 0, end: 0, eof: false };
        assert(r.spec_buffered() =~= Seq::<u8>::empty());
        r
    }

    /// Fill the buffer from the reader: the unconsumed bytes move to the front, and the
    /// source is read into the room after them. `Ok(false)` when nothing was read: once
    /// the source is at its end (which is then recorded), or while the unconsumed bytes
    /// fill the whole buffer (the source is not read then). A source that claims to have
    /// read more than the room it was given is taken to have filled that room
    pub fn fill_buffer(&mut self) -> (r: Result<bool, std::io::Error>)
        requires
            old(self).wf(),
        ensures
            final(self).wf(),
            final(self).spec_capacity() == old(self).spec_capacity(),
            old(self).spec_eof() ==> (r matches Ok(false) && final(self).spec_buffered()
                == old(self).spec_buffered() && final(self).spec_eof()),
            !old(self).spec_eof() && old(self).spec_buffered().len() == old(self).spec_capacity()
                ==> (r matches Ok(false) && final(self).spec_buffered() == old(self).spec_buffered()
                && !final(self).spec_eof()),
            !old(self).spec_eof() && old(self).spec_buffered().len() < old(self).spec_capacity()
                ==> match r {
                Ok(true) => final(self).spec_buffered().len() > old(self).spec_buffered().len()
                    && final(self).spec_buffered().subrange(0, old(self).spec_buffered().len() as int)
                    == old(self).spec_buffered() && !final(self).spec_eof(),
                Ok(false) => final(self).spec_buffered() == old(self).spec_buffered()
                    && final(self).spec_eof(),
                Err(_) => final(self).spec_buffered() == old(self).spec_buffered()
                    && !final(self).spec_eof(),
            },
    {
        if self.eof {
            return Ok(false);
        }
        let ghost data = self.spec_buffered();
        // Compact: move remaining data to start
        if self.pos > 0 {
            let remaining = self.end - self.pos;
            let mut i: usize = 0;
            while i < remaining
                invariant
                    self.pos + remaining == self.end,
                    self.end <= self.buffer@.len(),
                    i <= remaining,
                    data == old(self).buffer@.subrange(self.pos as int, self.end as int),
                    self.buffer@.len() == old(self).buffer@.len(),
                    forall|k: int| 0 <= k < i ==> self.buffer@[k] == data[k],
                    forall|k: int|
                        i <= k < self.buffer@.len() ==> self.buffer@[k] == old(self).buffer@[k],
                    self.pos == old(self).pos,
                    self.end == old(self).end,
                    self.eof == old(self).eof,
                    !old(self).eof,
                    self.pos > 0,
                decreases remaining - i,
            {
                let b = self.buffer[self.pos + i];
                self.buffer.set(i, b);
                i += 1;
            }
            self.end = remaining;
            self.pos = 0;
            assert(self.spec_buffered() =~= data);
        }
        // A full buffer leaves no room to read into
        if self.end == self.buffer.len() {
            return Ok(false);
        }
        // Read more data
        let end = self.end;
        let ghost before = self.buffer@;
        assert(before.subrange(self.pos as int, end as int) == data);
        let result = read_into(&mut self.reader, &mut self.buffer, end);
        let cap = self.buffer.len();
        proof {
            assert(self.buffer@.subrange(self.pos as int, end as int) =~= self.buffer@.subrange(
                0,
                end as int,
            ).subrange(self.pos as int, end as int));
            assert(before.subrange(self.pos as int, end as int) =~= before.subrange(0, end as int).subrange(
                self.pos as int,
                end as int,
            ));
        }
        let read = match result {
            Ok(n) => n,
            Err(e) => {
                assert(self.spec_buffered() =~= data);
                return Err(e);
            },
        };
        if read == 0 {
            self.eof = true;
            assert(self.spec_buffered() =~= data);
            Ok(false)
        } else {
            // A source that reports more than the room it was given has filled it.
            let read = if read <= cap - end {
                read
            } else {
                cap - end
            };
            self.end = end + read;
            assert(self.spec_buffered().subrange(0, data.len() as int) =~= data);
            Ok(true)
        }
    }

    /// Get current buffered data as a slice
    pub fn buffered(&self) -> (r: &[u8])
        requires
            self.wf(),
        ensures
            r@ == self.spec_buffered(),
    {
        &self.buffer.as_slice()[self.pos..self.end]
    }

    /// Check if we've reached end of input
    pub fn is_eof(&self) -> (r: bool)
        requires
            self.wf(),
        ensures
            r == (self.spec_eof() && self.spec_buffered().len() == 0),
    {
        self.eof && self.pos >= self.end
    }

    /// Consume `n` bytes from the buffer (at most all of them)
    pub fn consume(&mut self, n: usize)
        requires
            old(self).wf(),
        ensures
            final(self).wf(),
            final(self).spec_buffered() == old(self).spec_buffered().skip(
                if n < old(self).spec_buffered().len() {
                    n as int
                } else {
                    old(self).spec_buffered().len() as int
                },
            ),
            final(self).spec_eof() == old(self).spec_eof(),
            final(self).spec_capacity() == old(self).spec_capacity(),
    {
        let avail = self.end - self.pos;
        let k = if n < avail {
            n
        } else {
            avail
        };
        self.pos = self.pos + k;
        assert(self.spec_buffered() =~= old(self).spec_buffered().skip(k as int));
    }

    /// Read all remaining content into a Vec: the buffered bytes, then the rest of the
    /// source
    pub fn read_to_end(&mut self) -> (r: Result<Vec<u8>, std::io::Error>)
        requires
            old(self).wf(),
        ensures
            final(self).wf(),
            final(self).spec_buffered() == Seq::<u8>::empty(),
            r is Ok ==> final(self).spec_eof(),
            r matches Ok(v) ==> v@.len() >= old(self).spec_buffered().len() && v@.subrange(
                0,
                old(self).spec_buffered().len() as int,
            ) == old(self).spec_buffered(),
    {
        let mut result: Vec<u8> = vstd::slice::slice_to_vec(self.buffered());
        self.pos = self.end;
        assert(self.spec_buffered() =~= Seq::<u8>::empty());
        match read_rest(&mut self.reader, &mut result) {
            Ok(_) => {},
            Err(e) => {
                return Err(e);
            },
        }
        self.eof = true;
        Ok(result)
    }
}

} // verus!
