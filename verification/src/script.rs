//! A scripted in-memory stream.
//!
//! [`ScriptedStream`] implements [`ByteStream`] against a fixed script of
//! read and write outcomes, records every byte it accepts and counts the
//! attempts made on it. It gives the driver a stream whose behaviour —
//! partial writes, would-block, failures, end-of-stream — is chosen call by
//! call, and it is verified against the same contract that outside streams
//! are trusted to meet.

use vstd::prelude::*;
use crate::driver::{ByteStream, ReadOutcome, WriteOutcome};

verus! {

/// One scripted outcome of a read attempt.
pub enum ScriptedRead {
    /// Hand over these bytes (empty meaning the peer closed the stream).
    Give(Vec<u8>),
    /// Report would-block.
    Block,
    /// Fail.
    Fail,
}

/// One scripted outcome of a write attempt.
#[derive(Clone, Copy)]
pub enum ScriptedWrite {
    /// Accept up to this many bytes.
    Accept(usize),
    /// Report would-block.
    Block,
    /// Fail.
    Fail,
}

/// A duplex stream driven by a script. Once a script runs out, further
/// attempts on that side report would-block.
pub struct ScriptedStream {
    pub reads: Vec<ScriptedRead>,
    pub read_pos: usize,
    pub writes: Vec<ScriptedWrite>,
    pub write_pos: usize,
    /// Every byte accepted by a write, in order.
    pub written: Vec<u8>,
    /// Number of read attempts made on the stream.
    pub read_calls: u64,
    /// Number of write attempts made on the stream.
    pub write_calls: u64,
}

impl ScriptedStream {
    /// A stream with empty scripts: every attempt reports would-block.
    pub fn new() -> (r: ScriptedStream)
        ensures
            r.reads@.len() == 0,
            r.writes@.len() == 0,
            r.written@.len() == 0,
            r.read_calls == 0,
            r.write_calls == 0,
            r.read_pos == 0,
            r.write_pos == 0,
    {
        ScriptedStream {
            reads: Vec::new(),
            read_pos: 0,
            writes: Vec::new(),
            write_pos: 0,
            written: Vec::new(),
            read_calls: 0,
            write_calls: 0,
        }
    }

    /// Scripts the next read attempt to hand over these bytes.
    pub fn push_read_data(&mut self, bytes: Vec<u8>)
        ensures
            final(self).reads@ == old(self).reads@.push(ScriptedRead::Give(bytes)),
            final(self).writes == old(self).writes,
            final(self).written == old(self).written,
    {
        self.reads.push(ScriptedRead::Give(bytes));
    }

    /// Scripts the next read attempt to report would-block.
    pub fn push_read_would_block(&mut self)
        ensures
            final(self).reads@ == old(self).reads@.push(ScriptedRead::Block),
            final(self).writes == old(self).writes,
            final(self).written == old(self).written,
    {
        self.reads.push(ScriptedRead::Block);
    }

    /// Scripts the next read attempt to fail.
    pub fn push_read_failure(&mut self)
        ensures
            final(self).reads@ == old(self).reads@.push(ScriptedRead::Fail),
            final(self).writes == old(self).writes,
            final(self).written == old(self).written,
    {
        self.reads.push(ScriptedRead::Fail);
    }

    /// Scripts the next write attempt to accept up to `n` bytes.
    pub fn push_write_accept(&mut self, n: usize)
        ensures
            final(self).writes@ == old(self).writes@.push(ScriptedWrite::Accept(n)),
            final(self).reads == old(self).reads,
            final(self).written == old(self).written,
    {
        self.writes.push(ScriptedWrite::Accept(n));
    }

    /// Scripts the next write attempt to report would-block.
    pub fn push_write_would_block(&mut self)
        ensures
            final(self).writes@ == old(self).writes@.push(ScriptedWrite::Block),
            final(self).reads == old(self).reads,
            final(self).written == old(self).written,
    {
        self.writes.push(ScriptedWrite::Block);
    }

    /// Scripts the next write attempt to fail.
    pub fn push_write_failure(&mut self)
        ensures
            final(self).writes@ == old(self).writes@.push(ScriptedWrite::Fail),
            final(self).reads == old(self).reads,
            final(self).written == old(self).written,
    {
        self.writes.push(ScriptedWrite::Fail);
    }
}

impl ByteStream for ScriptedStream {
    fn stream_write(&mut self, data: &Vec<u8>) -> (r: WriteOutcome) {
        if self.write_calls < u64::MAX {
            self.write_calls = self.write_calls + 1;
        }
        if self.write_pos >= self.writes.len() {
            return WriteOutcome::WouldBlock;
        }
        let step = self.writes[self.write_pos];
        self.write_pos = self.write_pos + 1;
        match step {
            ScriptedWrite::Accept(k) => {
                let n = if k < data.len() {
                    k
                } else {
                    data.len()
                };
                let mut i: usize = 0;
                while i < n
                    invariant
                        i <= n,
                        n <= data@.len(),
                    decreases n - i,
                {
                    self.written.push(data[i]);
                    i = i + 1;
                }
                WriteOutcome::Wrote(n)
            },
            ScriptedWrite::Block => WriteOutcome::WouldBlock,
            ScriptedWrite::Fail => WriteOutcome::Failed,
        }
    }

    fn stream_read(&mut self, max: usize) -> (r: ReadOutcome) {
        if self.read_calls < u64::MAX {
            self.read_calls = self.read_calls + 1;
        }
        if self.read_pos >= self.reads.len() {
            return ReadOutcome::WouldBlock;
        }
        let pos = self.read_pos;
        self.read_pos = self.read_pos + 1;
        match &self.reads[pos] {
            ScriptedRead::Give(bytes) => {
                let n = if bytes.len() < max {
                    bytes.len()
                } else {
                    max
                };
                let mut out: Vec<u8> = Vec::new();
                let mut i: usize = 0;
                while i < n
                    invariant
                        i <= n,
                        n <= bytes@.len(),
                        out@.len() == i,
                    decreases n - i,
                {
                    out.push(bytes[i]);
                    i = i + 1;
                }
                ReadOutcome::Data(out)
            },
            ScriptedRead::Block => ReadOutcome::WouldBlock,
            ScriptedRead::Fail => ReadOutcome::Failed,
        }
    }
}

} // verus!
