//! Growable byte container with an explicit readable region and free region.
//!
//! A [`Buffer`] owns a contiguous byte storage area plus a read cursor and a
//! write cursor. The bytes between the cursors are the unread (readable)
//! region; the bytes after the write cursor are the free (writable) region.
//! Producers append with [`Buffer::push_bytes`] (or advance the write cursor
//! with [`Buffer::fill`]); consumers advance the read cursor with
//! [`Buffer::consume`]. [`Buffer::shift`] compacts the buffer, reclaiming the
//! consumed region at the front, so that a stream that is only ever partially
//! drained never starves the free region permanently.

use vstd::prelude::*;

verus! {

/// Mathematical model of a [`Buffer`]: the number of bytes consumed since the
/// last compaction, the unread bytes, and the size of the free region.
pub struct BufferModel {
    /// Bytes consumed (and not yet reclaimed by compaction) at the front.
    pub consumed: nat,
    /// The unread bytes, oldest first.
    pub data: Seq<u8>,
    /// Size in bytes of the free region.
    pub space: nat,
}

impl BufferModel {
    /// Total footprint: consumed region + unread region + free region.
    pub open spec fn total(self) -> nat {
        self.consumed + self.data.len() + self.space
    }

    /// Effect of appending `bytes` to the unread region.
    pub open spec fn fill(self, bytes: Seq<u8>) -> BufferModel
        recommends
            bytes.len() <= self.space,
    {
        BufferModel {
            consumed: self.consumed,
            data: self.data + bytes,
            space: (self.space - bytes.len()) as nat,
        }
    }

    /// Effect of consuming `n` bytes from the front of the unread region.
    pub open spec fn consume(self, n: nat) -> BufferModel
        recommends
            n <= self.data.len(),
    {
        BufferModel {
            consumed: self.consumed + n,
            data: self.data.skip(n as int),
            space: self.space,
        }
    }

    /// Effect of compaction: the consumed region is reclaimed as free space;
    /// the unread bytes are untouched.
    pub open spec fn shift(self) -> BufferModel {
        BufferModel { consumed: 0, data: self.data, space: self.space + self.consumed }
    }
}

/// Byte buffer with a read cursor and a write cursor,
/// `0 <= read cursor <= write cursor <= capacity`.
pub struct Buffer {
    memory: Vec<u8>,
    position: usize,
    end: usize,
}

impl View for Buffer {
    type V = BufferModel;

    closed spec fn view(&self) -> BufferModel {
        BufferModel {
            consumed: self.position as nat,
            data: self.memory@.subrange(self.position as int, self.end as int),
            space: (self.memory@.len() - self.end) as nat,
        }
    }
}

impl Buffer {
    /// Cursor invariant: read cursor <= write cursor <= capacity.
    pub closed spec fn wf(&self) -> bool {
        self.position <= self.end <= self.memory@.len()
    }

    /// A fresh buffer of the given capacity: nothing consumed, nothing unread.
    pub fn new(capacity: usize) -> (r: Buffer)
        ensures
            r.wf(),
            r@.consumed == 0,
            r@.data == Seq::<u8>::empty(),
            r@.space == capacity,
    {
        let b = Buffer { memory: vec![0u8; capacity], position: 0, end: 0 };
        proof {
            assert(b@.data =~= Seq::<u8>::empty());
        }
        b
    }

    /// Number of unread bytes.
    pub fn available_data(&self) -> (r: usize)
        requires
            self.wf(),
        ensures
            r == self@.data.len(),
    {
        self.end - self.position
    }

    /// Number of free bytes after the write cursor.
    pub fn available_space(&self) -> (r: usize)
        requires
            self.wf(),
        ensures
            r == self@.space,
    {
        self.memory.len() - self.end
    }

    /// Total footprint of the buffer, constant across fill/consume/shift.
    pub fn capacity(&self) -> (r: usize)
        requires
            self.wf(),
        ensures
            r == self@.total(),
    {
        self.memory.len()
    }

    /// The unread byte at offset `i` from the read cursor.
    pub fn byte_at(&self, i: usize) -> (r: u8)
        requires
            self.wf(),
            i < self@.data.len(),
        ensures
            r == self@.data[i as int],
    {
        self.memory[self.position + i]
    }

    /// A copy of the unread region, oldest byte first.
    pub fn data(&self) -> (r: Vec<u8>)
        requires
            self.wf(),
        ensures
            r@ == self@.data,
    {
        let mut out: Vec<u8> = Vec::new();
        let mut i: usize = 0;
        let n = self.end - self.position;
        while i < n
            invariant
                self.wf(),
                n == self@.data.len(),
                i <= n,
                out@ == self@.data.take(i as int),
            decreases n - i,
        {
            out.push(self.memory[self.position + i]);
            proof {
                assert(out@ =~= self@.data.take(i + 1));
            }
            i = i + 1;
        }
        proof {
            assert(out@ =~= self@.data);
        }
        out
    }

    /// Advances the write cursor by `n`, publishing `n` bytes of the free
    /// region (whatever they hold) as unread data. The unread bytes already
    /// present are unchanged.
    pub fn fill(&mut self, n: usize)
        requires
            old(self).wf(),
            n <= old(self)@.space,
        ensures
            final(self).wf(),
            final(self)@.consumed == old(self)@.consumed,
            final(self)@.space == old(self)@.space - n,
            final(self)@.data.len() == old(self)@.data.len() + n,
            final(self)@.data.take(old(self)@.data.len() as int) == old(self)@.data,
    {
        let cap = self.memory.len();
        self.end = self.end + n;
        proof {
            assert(self@.data.take(old(self)@.data.len() as int) =~= old(self)@.data);
        }
    }

    /// Advances the read cursor by `n`, discarding the first `n` unread bytes.
    /// Does not touch the free region.
    pub fn consume(&mut self, n: usize)
        requires
            old(self).wf(),
            n <= old(self)@.data.len(),
        ensures
            final(self).wf(),
            final(self)@ == old(self)@.consume(n as nat),
    {
        self.position = self.position + n;
        proof {
            assert(self@.data =~= old(self)@.consume(n as nat).data);
        }
    }

    /// Appends the given bytes to the unread region, consuming free space.
    pub fn push_bytes(&mut self, bytes: &Vec<u8>)
        requires
            old(self).wf(),
            bytes@.len() <= old(self)@.space,
        ensures
            final(self).wf(),
            final(self)@ == old(self)@.fill(bytes@),
    {
        let cap = self.memory.len();
        let n = bytes.len();
        let mut i: usize = 0;
        while i < n
            invariant
                old(self).wf(),
                n == bytes@.len(),
                i <= n,
                old(self).end + n <= cap,
                cap == old(self).memory@.len(),
                self.position == old(self).position,
                self.end == old(self).end,
                self.memory@.len() == old(self).memory@.len(),
                forall|j: int| 0 <= j < self.end ==> self.memory@[j] == old(self).memory@[j],
                forall|j: int| 0 <= j < i ==> self.memory@[self.end + j] == bytes@[j],
            decreases n - i,
        {
            self.memory[self.end + i] = bytes[i];
            i = i + 1;
        }
        self.end = self.end + n;
        proof {
            assert(self@.data =~= old(self)@.fill(bytes@).data);
        }
    }

    /// Compacts the buffer: moves the unread bytes to the start of storage,
    /// reclaiming the consumed region at the front as free space.
    pub fn shift(&mut self)
        requires
            old(self).wf(),
        ensures
            final(self).wf(),
            final(self)@ == old(self)@.shift(),
    {
        let total = self.memory.len();
        let n = self.end - self.position;
        let mut fresh: Vec<u8> = Vec::new();
        let mut i: usize = 0;
        while i < n
            invariant
                old(self).wf(),
                n == old(self)@.data.len(),
                i <= n,
                fresh@ == old(self)@.data.take(i as int),
            decreases n - i,
        {
            fresh.push(self.memory[self.position + i]);
            proof {
                assert(fresh@ =~= old(self)@.data.take(i + 1));
            }
            i = i + 1;
        }
        while fresh.len() < total
            invariant
                old(self).wf(),
                n == old(self)@.data.len(),
                n <= fresh@.len() <= total,
                total == old(self).memory@.len(),
                fresh@.take(n as int) == old(self)@.data,
            decreases total - fresh@.len(),
        {
            fresh.push(0u8);
            proof {
                assert(fresh@.take(n as int) =~= old(self)@.data);
            }
        }
        self.memory = fresh;
        self.position = 0;
        self.end = n;
        proof {
            assert(self@.data =~= old(self)@.shift().data);
            assert(self@ == old(self)@.shift());
        }
    }
}

/// One operation on a buffer: appending bytes to the unread region,
/// consuming unread bytes, or compacting.
pub enum BufferOp {
    Fill(Seq<u8>),
    Consume(nat),
    Shift,
}

/// Effect of one operation on the model.
pub open spec fn apply_op(m: BufferModel, op: BufferOp) -> BufferModel {
    match op {
        BufferOp::Fill(bytes) => m.fill(bytes),
        BufferOp::Consume(n) => m.consume(n),
        BufferOp::Shift => m.shift(),
    }
}

/// Effect of a sequence of operations, first operation first.
pub open spec fn apply_ops(m: BufferModel, ops: Seq<BufferOp>) -> BufferModel
    decreases ops.len(),
{
    if ops.len() == 0 {
        m
    } else {
        apply_ops(apply_op(m, ops[0]), ops.skip(1))
    }
}

/// The operation respects its precondition: a fill fits the free region, a
/// consume takes no more than is unread.
pub open spec fn op_allowed(m: BufferModel, op: BufferOp) -> bool {
    match op {
        BufferOp::Fill(bytes) => bytes.len() <= m.space,
        BufferOp::Consume(n) => n <= m.data.len(),
        BufferOp::Shift => true,
    }
}

/// Every operation of the sequence respects its precondition in the state it
/// runs in.
pub open spec fn ops_allowed(m: BufferModel, ops: Seq<BufferOp>) -> bool
    decreases ops.len(),
{
    if ops.len() == 0 {
        true
    } else {
        op_allowed(m, ops[0]) && ops_allowed(apply_op(m, ops[0]), ops.skip(1))
    }
}

/// The operation fills strictly less than the free region, or is not a fill
/// at all.
pub open spec fn op_fills_strictly(m: BufferModel, op: BufferOp) -> bool {
    match op {
        BufferOp::Fill(bytes) => bytes.len() < m.space,
        BufferOp::Consume(n) => n <= m.data.len(),
        BufferOp::Shift => true,
    }
}

/// Every fill of the sequence is strict in the state it runs in.
pub open spec fn ops_fill_strictly(m: BufferModel, ops: Seq<BufferOp>) -> bool
    decreases ops.len(),
{
    if ops.len() == 0 {
        true
    } else {
        op_fills_strictly(m, ops[0]) && ops_fill_strictly(apply_op(m, ops[0]), ops.skip(1))
    }
}

/// Conservation law: under every sequence of fill, consume and shift
/// operations respecting the preconditions, the total footprint — unread
/// bytes, free bytes, and bytes consumed since the last compaction — stays
/// the buffer's capacity. In particular the unread and free counts are
/// non-negative throughout, being counts.
pub proof fn lemma_ops_conserve_total(m: BufferModel, ops: Seq<BufferOp>)
    requires
        ops_allowed(m, ops),
    ensures
        apply_ops(m, ops).total() == m.total(),
    decreases ops.len(),
{
    if ops.len() == 0 {
    } else {
        lemma_ops_conserve_total(apply_op(m, ops[0]), ops.skip(1));
    }
}

/// No-starvation law: a writer that always fills strictly less than the free
/// region, whatever consuming and compaction happen in between, never sees
/// the free region reach zero.
pub proof fn lemma_ops_no_starvation(m: BufferModel, ops: Seq<BufferOp>)
    requires
        m.space > 0,
        ops_fill_strictly(m, ops),
    ensures
        apply_ops(m, ops).space > 0,
    decreases ops.len(),
{
    if ops.len() == 0 {
    } else {
        lemma_ops_no_starvation(apply_op(m, ops[0]), ops.skip(1));
    }
}

/// No-starvation law, reclaim: once a reader has consumed all filled data,
/// compaction restores the free region to the buffer's whole footprint — so
/// a reader that eventually drains everything always hands the writer back
/// the full capacity.
pub proof fn lemma_drained_shift_restores_space(m: BufferModel)
    requires
        m.data.len() == 0,
    ensures
        m.shift().space == m.total(),
{
}

} // verus!
