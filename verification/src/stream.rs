//! Decisions of the ring-based forwarder: how much to read next, and when to stop.

use vstd::prelude::*;
use crate::bytes::{ascii, ascii_bytes, ends_with, finishes_with};

verus! {

/// Most bytes of one read.
pub const CHUNK: usize = 65536;

/// The next read when so many bytes are still wanted.
pub open spec fn next_chunk(left: nat) -> nat {
    if left < CHUNK {
        left
    } else {
        CHUNK as nat
    }
}

/// A request head being read, up to a limit.
#[derive(Debug)]
pub struct HeadReader {
    head: Vec<u8>,
    limit: usize,
    ended: bool,
}

/// A request head being read, as the contracts see it.
pub struct HeadState {
    pub head: Seq<u8>,
    pub limit: nat,
    pub ended: bool,
}

impl HeadState {
    /// Whether the head is at its blank line, at the limit, or at the end of the stream.
    pub open spec fn done(self) -> bool {
        self.ended || self.head.len() >= self.limit || finishes_with(
            self.head,
            ascii("\r\n\r\n"@),
        )
    }

    /// The head after a read that gave `count` bytes of `chunk`; without a byte the stream is at
    /// its end.
    pub open spec fn after_read(self, count: i32, chunk: Seq<u8>) -> HeadState {
        if count <= 0 {
            HeadState { ended: true, ..self }
        } else {
            HeadState { head: self.head + chunk.take(count as int), ..self }
        }
    }
}

impl View for HeadReader {
    type V = HeadState;

    closed spec fn view(&self) -> HeadState {
        HeadState { head: self.head@, limit: self.limit as nat, ended: self.ended }
    }
}

impl HeadReader {
    /// The head never exceeds its limit.
    pub open spec fn wf(self) -> bool {
        self@.head.len() <= self@.limit
    }

    pub fn new(limit: usize) -> (r: HeadReader)
        ensures
            r.wf(),
            r@ == (HeadState { head: Seq::empty(), limit: limit as nat, ended: false }),
    {
        HeadReader { head: Vec::new(), limit, ended: false }
    }

    /// How many bytes to read next, `None` when the head is done.
    pub fn wanted(&self) -> (r: Option<usize>)
        requires
            self.wf(),
        ensures
            match r {
                Some(n) => !self@.done() && n == next_chunk((self@.limit - self@.head.len()) as nat)
                    && n > 0,
                None => self@.done(),
            },
    {
        proof {
            reveal_strlit("\r\n\r\n");
        }
        if self.ended || self.head.len() >= self.limit || ends_with(
            self.head.as_slice(),
            ascii_bytes("\r\n\r\n"),
        ) {
            return None;
        }
        let left: usize = self.limit - self.head.len();
        Some(if left < CHUNK {
            left
        } else {
            CHUNK
        })
    }

    /// Takes the outcome of a read: `count` bytes at the front of `chunk`, or a code of at most
    /// zero.
    pub fn received(&mut self, count: i32, chunk: &[u8])
        requires
            old(self).wf(),
            count <= chunk@.len(),
            count <= old(self)@.limit - old(self)@.head.len(),
        ensures
            final(self).wf(),
            final(self)@ == old(self)@.after_read(count, chunk@),
    {
        if count <= 0 {
            self.ended = true;
            return;
        }
        let ghost before = self.head@;
        let n: usize = count as usize;
        for i in 0..n
            invariant
                n <= chunk@.len(),
                self.head@ =~= before + chunk@.take(i as int),
                self.limit == old(self).limit,
                self.ended == old(self).ended,
        {
            self.head.push(chunk[i]);
        }
    }

    /// The head that was read.
    pub fn into_head(self) -> (r: Vec<u8>)
        ensures
            r@ == self@.head,
    {
        self.head
    }
}

/// What a copy does next.
#[derive(Debug, Clone, Copy, PartialEq, Eq, Structural)]
pub enum CopyStep {
    /// Read so many bytes.
    Read { len: usize },
    /// Write that many of the bytes just read.
    Write { len: usize },
    /// All is copied.
    Done { total: u64 },
    /// Writing failed with a code below zero.
    Failed { code: i32 },
}

/// A copy between two streams, up to a limit.
#[derive(Debug)]
pub struct CopyLoop {
    total: u64,
    limit: u64,
    held: u64,
}

/// A copy, as the contracts see it.
pub struct CopyState {
    /// Bytes copied.
    pub total: nat,
    pub limit: nat,
    /// Bytes read and not yet written.
    pub held: nat,
}

impl CopyState {
    /// The step when nothing is held.
    pub open spec fn next(self) -> CopyStep {
        if self.total < self.limit {
            CopyStep::Read { len: next_chunk((self.limit - self.total) as nat) as usize }
        } else {
            CopyStep::Done { total: self.total as u64 }
        }
    }

    /// The copy after a read of `count` bytes.
    pub open spec fn after_read(self, count: i32) -> CopyState {
        CopyState {
            held: if count <= 0 {
                0
            } else {
                count as nat
            },
            ..self
        }
    }

    /// The copy after a write. What was read counts as copied once it is handed to the stream.
    pub open spec fn after_write(self, code: i32) -> CopyState {
        if code < 0 {
            self
        } else {
            CopyState { total: self.total + self.held, held: 0, ..self }
        }
    }

    /// Never more than the limit is copied.
    pub open spec fn valid(self) -> bool {
        self.total + self.held <= self.limit <= usize::MAX
    }
}

impl View for CopyLoop {
    type V = CopyState;

    closed spec fn view(&self) -> CopyState {
        CopyState {
            total: self.total as nat,
            limit: self.limit as nat,
            held: self.held as nat,
        }
    }
}

impl CopyLoop {
    pub fn new(limit: usize) -> (r: CopyLoop)
        ensures
            r@ == (CopyState { total: 0, limit: limit as nat, held: 0 }),
            r@.valid(),
    {
        CopyLoop { total: 0, limit: limit as u64, held: 0 }
    }

    /// The first step, and the next one after a write.
    pub fn next(&self) -> (r: CopyStep)
        requires
            self@.valid(),
        ensures
            r == self@.next(),
    {
        if self.total < self.limit {
            let left: u64 = self.limit - self.total;
            CopyStep::Read {
                len: if left < CHUNK as u64 {
                    left as usize
                } else {
                    CHUNK
                },
            }
        } else {
            CopyStep::Done { total: self.total }
        }
    }

    /// Takes the outcome of a read: a count, or a code of at most zero, at which the stream ends.
    pub fn after_read(&mut self, count: i32) -> (r: CopyStep)
        requires
            old(self)@.valid(),
            count <= old(self)@.limit - old(self)@.total,
        ensures
            final(self)@ == old(self)@.after_read(count),
            final(self)@.valid(),
            r == if count <= 0 {
                CopyStep::Done { total: old(self)@.total as u64 }
            } else {
                CopyStep::Write { len: count as usize }
            },
    {
        if count <= 0 {
            self.held = 0;
            CopyStep::Done { total: self.total }
        } else {
            self.held = count as u64;
            CopyStep::Write { len: count as usize }
        }
    }

    /// Takes the outcome of a write: a code below zero is an error.
    pub fn after_write(&mut self, code: i32) -> (r: CopyStep)
        requires
            old(self)@.valid(),
        ensures
            final(self)@ == old(self)@.after_write(code),
            final(self)@.valid(),
            r == if code < 0 {
                CopyStep::Failed { code }
            } else {
                final(self)@.next()
            },
    {
        if code < 0 {
            return CopyStep::Failed { code };
        }
        self.total = self.total + self.held;
        self.held = 0;
        self.next()
    }
}

/// A copy that goes on makes progress: after a read that gave bytes and its write, more is
/// copied, and never more than the limit.
pub proof fn copying_advances(s: CopyState, count: i32, code: i32)
    requires
        s.valid(),
        s.total < s.limit,
        0 < count <= next_chunk((s.limit - s.total) as nat),
        code >= 0,
    ensures
        ({
            let t = s.after_read(count).after_write(code);
            &&& t.valid()
            &&& t.total == s.total + count
            &&& t.total <= s.limit
        }),
{
}

} // verus!
