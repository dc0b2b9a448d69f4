//! A seekable write buffer in front of an append-only file.
//!
//! The writer holds every byte written since the last flush, so a position
//! inside that window can be revisited and overwritten. Positions are
//! absolute file positions. A seek behind the flush boundary is refused, and
//! so is one past the end of what was written.

use crate::models::common::StoreError;
use vstd::prelude::*;

verus! {

/// The largest length of an index file: every offset in it is below
/// `u32::MAX`, which stays free to mean "absent".
pub const MAX_FILE_LEN: u64 = 4294967295;

/// `buf` after `data` was written at `at`: bytes under `data` are replaced
/// and the sequence grows where `data` reaches past its end.
#[verifier::opaque]
pub open spec fn write_at(buf: Seq<u8>, at: int, data: Seq<u8>) -> Seq<u8> {
    Seq::new(
        if at + data.len() > buf.len() {
            (at + data.len()) as nat
        } else {
            buf.len()
        },
        |i: int|
            if at <= i < at + data.len() {
                data[i - at]
            } else {
                buf[i]
            },
    )
}

/// Writing at the end appends.
pub proof fn lemma_write_at_end(buf: Seq<u8>, data: Seq<u8>)
    ensures
        write_at(buf, buf.len() as int, data) == buf + data,
{
    reveal(write_at);
    assert(write_at(buf, buf.len() as int, data) =~= buf + data);
}

/// A write inside, or at the end of, a region written earlier is a write
/// into that region.
pub proof fn lemma_write_at_nested(buf: Seq<u8>, at: int, x: Seq<u8>, k: int, y: Seq<u8>)
    requires
        0 <= at <= buf.len(),
        0 <= k <= x.len(),
    ensures
        write_at(write_at(buf, at, x), at + k, y) == write_at(buf, at, write_at(x, k, y)),
{
    reveal(write_at);
    assert(write_at(write_at(buf, at, x), at + k, y) =~= write_at(buf, at, write_at(x, k, y)));
}

/// A write leaves what lies before it alone and can be read back.
pub proof fn lemma_write_at_reads(buf: Seq<u8>, at: int, data: Seq<u8>)
    requires
        0 <= at <= buf.len(),
    ensures
        write_at(buf, at, data).len() >= at + data.len(),
        write_at(buf, at, data).len() >= buf.len(),
        write_at(buf, at, data).subrange(0, at) == buf.subrange(0, at),
        write_at(buf, at, data).subrange(at, at + data.len()) == data,
        at + data.len() <= buf.len() ==> write_at(buf, at, data).len() == buf.len(),
        forall|i: int|
            0 <= i < write_at(buf, at, data).len() && !(at <= i < at + data.len())
                ==> #[trigger] write_at(buf, at, data)[i] == buf[i],
{
    reveal(write_at);
    assert(write_at(buf, at, data).subrange(0, at) =~= buf.subrange(0, at));
    assert(write_at(buf, at, data).subrange(at, at + data.len()) =~= data);
}

/// What a writer holds: the length of the file below it, the bytes written
/// since, and the cursor as an index into those bytes.
pub struct WriterState {
    pub flushed: nat,
    pub buffer: Seq<u8>,
    pub cursor: nat,
}

impl WriterState {
    /// The cursor as an absolute file position.
    pub open spec fn position(self) -> nat {
        self.flushed + self.cursor
    }

    /// The state after `data` was written at the cursor.
    pub open spec fn written(self, data: Seq<u8>) -> WriterState {
        WriterState {
            flushed: self.flushed,
            buffer: write_at(self.buffer, self.cursor as int, data),
            cursor: self.cursor + data.len(),
        }
    }

    /// The state after the cursor moved to the absolute position `pos`.
    pub open spec fn moved_to(self, pos: nat) -> WriterState {
        WriterState { cursor: (pos - self.flushed) as nat, ..self }
    }

    /// The cursor is inside the window and the file stays addressable.
    pub open spec fn wf(self) -> bool {
        &&& self.cursor <= self.buffer.len()
        &&& self.flushed + self.buffer.len() <= MAX_FILE_LEN
    }
}

pub struct CustomBufferedWriter {
    flushed: u64,
    buffer: Vec<u8>,
    cursor: usize,
}

impl View for CustomBufferedWriter {
    type V = WriterState;

    closed spec fn view(&self) -> WriterState {
        WriterState {
            flushed: self.flushed as nat,
            buffer: self.buffer@,
            cursor: self.cursor as nat,
        }
    }
}

impl CustomBufferedWriter {
    /// A writer over a file that holds `file_len` bytes already.
    pub fn new(file_len: u64) -> (r: Result<Self, StoreError>)
        ensures
            r is Ok <==> file_len <= MAX_FILE_LEN,
            r matches Ok(w) ==> w@ == (WriterState {
                flushed: file_len as nat,
                buffer: Seq::<u8>::empty(),
                cursor: 0,
            }) && w@.wf(),
            r matches Err(e) ==> e == StoreError::FileTooLarge,
    {
        if file_len > MAX_FILE_LEN {
            return Err(StoreError::FileTooLarge);
        }
        Ok(CustomBufferedWriter { flushed: file_len, buffer: Vec::new(), cursor: 0 })
    }

    /// The cursor as an absolute file position.
    pub fn stream_position(&self) -> (pos: u64)
        requires
            self@.wf(),
        ensures
            pos == self@.position(),
            pos <= MAX_FILE_LEN,
    {
        self.flushed + self.cursor as u64
    }

    /// Writes all of `data` at the cursor and moves the cursor behind it.
    /// Nothing is written when the file would grow past `MAX_FILE_LEN`.
    pub fn write(&mut self, data: &[u8]) -> (r: Result<(), StoreError>)
        requires
            old(self)@.wf(),
        ensures
            final(self)@.wf(),
            r is Ok <==> old(self)@.position() + data@.len() <= MAX_FILE_LEN,
            r is Ok ==> final(self)@ == old(self)@.written(data@),
            r matches Err(e) ==> e == StoreError::FileTooLarge && final(self)@ == old(self)@,
    {
        let room: u64 = MAX_FILE_LEN - (self.flushed + self.cursor as u64);
        let n: usize = data.len();
        if n as u64 > room {
            return Err(StoreError::FileTooLarge);
        }
        let start: usize = self.cursor;
        let mut i: usize = 0;
        proof {
            reveal(write_at);
            assert(self.buffer@ =~= write_at(
                old(self).buffer@,
                start as int,
                data@.subrange(0, 0),
            ));
        }
        while i < n
            invariant
                n == data@.len(),
                start == old(self).cursor,
                self.flushed == old(self).flushed,
                i <= n,
                self.cursor == start + i,
                old(self)@.wf(),
                old(self)@.position() + n <= MAX_FILE_LEN,
                self.buffer@ == write_at(
                    old(self).buffer@,
                    start as int,
                    data@.subrange(0, i as int),
                ),
            decreases n - i,
        {
            proof {
                reveal(write_at);
            }
            let b: u8 = data[i];
            if self.cursor < self.buffer.len() {
                self.buffer[self.cursor] = b;
            } else {
                self.buffer.push(b);
            }
            self.cursor = self.cursor + 1;
            i = i + 1;
            assert(self.buffer@ =~= write_at(
                old(self).buffer@,
                start as int,
                data@.subrange(0, i as int),
            ));
        }
        assert(data@.subrange(0, n as int) =~= data@);
        Ok(())
    }

    /// Moves the cursor to the absolute position `pos`, which must lie
    /// between the flush boundary and the end of what was written.
    pub fn seek(&mut self, pos: u64) -> (r: Result<u64, StoreError>)
        requires
            old(self)@.wf(),
        ensures
            final(self)@.wf(),
            r is Ok <==> old(self)@.flushed <= pos <= old(self)@.flushed + old(self)@.buffer.len(),
            r matches Ok(p) ==> p == pos && final(self)@ == old(self)@.moved_to(pos as nat),
            r is Err ==> final(self)@ == old(self)@,
            r matches Err(e) ==> e == (if pos < old(self)@.flushed {
                StoreError::BehindFlushBoundary
            } else {
                StoreError::PastEnd
            }),
    {
        if pos < self.flushed {
            return Err(StoreError::BehindFlushBoundary);
        }
        let rel: u64 = pos - self.flushed;
        if rel > self.buffer.len() as u64 {
            return Err(StoreError::PastEnd);
        }
        self.cursor = rel as usize;
        Ok(pos)
    }

    /// Hands out the bytes written since the last flush, for the caller to
    /// append to the file, and moves the flush boundary behind them.
    pub fn flush(&mut self) -> (out: Vec<u8>)
        requires
            old(self)@.wf(),
        ensures
            out@ == old(self)@.buffer,
            final(self)@ == (WriterState {
                flushed: old(self)@.flushed + old(self)@.buffer.len(),
                buffer: Seq::<u8>::empty(),
                cursor: 0,
            }),
            final(self)@.wf(),
    {
        let mut out: Vec<u8> = Vec::new();
        self.flushed = self.flushed + self.buffer.len() as u64;
        self.cursor = 0;
        std::mem::swap(&mut out, &mut self.buffer);
        out
    }
}

} // verus!
