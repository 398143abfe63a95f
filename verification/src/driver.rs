//! The non-blocking connection driver.
//!
//! [`Connection::run`] performs exactly the work currently possible without
//! blocking the calling thread: per pass, at most one write attempt, one read
//! attempt and one parse attempt, in that fixed order, until no further
//! progress is possible without an external event. Would-block outcomes are
//! absorbed as per-invocation flags; any other stream failure or a malformed
//! frame drives the state machine to `Error` and is propagated once.

use vstd::prelude::*;
use crate::buffer::Buffer;
use crate::connection::{
    Connection, ConnModel, ConnectionState, TransportError, lemma_wf_new_queue,
    lemma_wf_same_tables,
};
use crate::frame::{
    FrameModel, frame_bytes, frame_len, frame_wf, decode_prefix, DecodeOutcome, spec_parse,
    SpecParseResult, lemma_parse_exact,
};

verus! {

/// Outcome of one non-blocking write attempt on a stream.
pub enum WriteOutcome {
    /// This many bytes were accepted; zero means the stream can take none.
    Wrote(usize),
    /// No bytes could be transferred right now; not an error.
    WouldBlock,
    /// The stream failed.
    Failed,
}

/// Outcome of one non-blocking read attempt on a stream.
pub enum ReadOutcome {
    /// The bytes read; an empty vector means the peer closed the stream.
    Data(Vec<u8>),
    /// No bytes could be transferred right now; not an error.
    WouldBlock,
    /// The stream failed.
    Failed,
}

/// A duplex byte stream with non-blocking reads and writes (a plain socket, a
/// TLS-wrapped socket, a local socket), supplied by the caller. The driver
/// relies only on the two bounds stated here: a write accepts at most the
/// bytes offered, a read returns at most the bytes asked for.
pub trait ByteStream {
    /// Attempts one non-blocking write of `data`; never blocks.
    fn stream_write(&mut self, data: &Vec<u8>) -> (r: WriteOutcome)
        ensures
            (match r {
                WriteOutcome::Wrote(n) => n <= data@.len(),
                WriteOutcome::WouldBlock => true,
                WriteOutcome::Failed => true,
            }),
    ;

    /// Attempts one non-blocking read of at most `max` bytes; never blocks.
    fn stream_read(&mut self, max: usize) -> (r: ReadOutcome)
        ensures
            (match r {
                ReadOutcome::Data(d) => d@.len() <= max,
                ReadOutcome::WouldBlock => true,
                ReadOutcome::Failed => true,
            }),
    ;
}

/// The frames drained from the front of `queue` into `space` free bytes —
/// the longest prefix of the queue whose encodings fit, in FIFO order — and
/// the bytes they encode to: `.0` is what remains queued, `.1` the emitted
/// bytes.
pub open spec fn drain_queue(queue: Seq<FrameModel>, space: nat) -> (Seq<FrameModel>, Seq<u8>)
    decreases queue.len(),
{
    if queue.len() == 0 {
        (queue, Seq::<u8>::empty())
    } else if frame_len(queue[0]) > space {
        (queue, Seq::<u8>::empty())
    } else {
        let r = drain_queue(queue.skip(1), (space - frame_len(queue[0])) as nat);
        (r.0, frame_bytes(queue[0]) + r.1)
    }
}

/// Total size in bytes of the encodings of all queued frames.
pub open spec fn queue_bytes(queue: Seq<FrameModel>) -> nat
    decreases queue.len(),
{
    if queue.len() == 0 {
        0
    } else {
        frame_len(queue[0]) + queue_bytes(queue.skip(1))
    }
}

/// Draining conserves bytes: what remains queued plus what was emitted is
/// exactly what was queued.
pub proof fn lemma_drain_queue_bytes(queue: Seq<FrameModel>, space: nat)
    ensures
        queue_bytes(drain_queue(queue, space).0) + drain_queue(queue, space).1.len()
            == queue_bytes(queue),
    decreases queue.len(),
{
    if queue.len() == 0 {
    } else if frame_len(queue[0]) > space {
    } else {
        lemma_drain_queue_bytes(queue.skip(1), (space - frame_len(queue[0])) as nat);
    }
}

/// The bytes the send side still owes the stream, queue part: the
/// encodings of all queued frames, in FIFO order.
pub open spec fn pending_bytes(queue: Seq<FrameModel>) -> Seq<u8>
    decreases queue.len(),
{
    if queue.len() == 0 {
        Seq::<u8>::empty()
    } else {
        frame_bytes(queue[0]) + pending_bytes(queue.skip(1))
    }
}

/// Draining emits exactly a prefix of the owed bytes: what was emitted,
/// followed by the encodings of what remains queued, is the whole queue's
/// encoding, in order.
pub proof fn lemma_drain_queue_prefix(queue: Seq<FrameModel>, space: nat)
    ensures
        drain_queue(queue, space).1 + pending_bytes(drain_queue(queue, space).0) == pending_bytes(
            queue,
        ),
    decreases queue.len(),
{
    if queue.len() == 0 {
        assert(drain_queue(queue, space).1 + pending_bytes(queue) =~= pending_bytes(queue));
    } else if frame_len(queue[0]) > space {
        assert(drain_queue(queue, space).1 + pending_bytes(queue) =~= pending_bytes(queue));
    } else {
        let rest = queue.skip(1);
        let space2 = (space - frame_len(queue[0])) as nat;
        lemma_drain_queue_prefix(rest, space2);
        assert((frame_bytes(queue[0]) + drain_queue(rest, space2).1) + pending_bytes(
            drain_queue(rest, space2).0,
        ) =~= frame_bytes(queue[0]) + (drain_queue(rest, space2).1 + pending_bytes(
            drain_queue(rest, space2).0,
        )));
        assert(frame_bytes(queue[0]) + pending_bytes(rest) =~= pending_bytes(queue));
    }
}

/// Appending a frame to a queue appends its encoding to the owed bytes.
pub proof fn lemma_pending_bytes_push(q: Seq<FrameModel>, f: FrameModel)
    ensures
        pending_bytes(q.push(f)) == pending_bytes(q) + frame_bytes(f),
    decreases q.len(),
{
    if q.len() == 0 {
        assert(q.push(f).skip(1) =~= Seq::<FrameModel>::empty());
        assert(q.push(f)[0] == f);
        assert(pending_bytes(q.push(f)) == frame_bytes(f) + pending_bytes(
            Seq::<FrameModel>::empty(),
        ));
        assert(frame_bytes(f) + Seq::<u8>::empty() =~= Seq::<u8>::empty() + frame_bytes(f));
    } else {
        assert(q.push(f).skip(1) =~= q.skip(1).push(f));
        assert(q.push(f)[0] == q[0]);
        lemma_pending_bytes_push(q.skip(1), f);
        assert(pending_bytes(q.push(f)) == frame_bytes(q[0]) + (pending_bytes(q.skip(1))
            + frame_bytes(f)));
        assert(frame_bytes(q[0]) + (pending_bytes(q.skip(1)) + frame_bytes(f)) =~= (frame_bytes(
            q[0],
        ) + pending_bytes(q.skip(1))) + frame_bytes(f));
    }
}

/// Bookkeeping of one write step: serializing the queue into the buffer and
/// then sending `n` of the buffered bytes moves exactly those `n` bytes out
/// of the outbound image (buffered bytes followed by queued encodings) into
/// the sent prefix — none is dropped, none is sent twice.
pub proof fn lemma_write_step_image(
    sent: Seq<u8>,
    data_pre: Seq<u8>,
    q_pre: Seq<FrameModel>,
    space_pre: nat,
    n: int,
)
    requires
        0 <= n <= (data_pre + drain_queue(q_pre, space_pre).1).len(),
    ensures
        ({
            let d = drain_queue(q_pre, space_pre);
            let grown = data_pre + d.1;
            sent + (data_pre + pending_bytes(q_pre)) == (sent + grown.take(n)) + (grown.skip(n)
                + pending_bytes(d.0))
        }),
{
    let d = drain_queue(q_pre, space_pre);
    let grown = data_pre + d.1;
    lemma_drain_queue_prefix(q_pre, space_pre);
    assert(sent + (data_pre + pending_bytes(q_pre)) =~= (sent + grown.take(n)) + (grown.skip(n)
        + pending_bytes(d.0)));
}

/// Bookkeeping of one read step: bytes that arrive join the receive image on
/// both sides of the ledger.
pub proof fn lemma_read_step_image(
    rdata0: Seq<u8>,
    arrived: Seq<u8>,
    app: Seq<FrameModel>,
    pre_data: Seq<u8>,
    bs: Seq<u8>,
)
    requires
        rdata0 + arrived == pending_bytes(app) + pre_data,
    ensures
        rdata0 + (arrived + bs) == pending_bytes(app) + (pre_data + bs),
{
    assert(rdata0 + (arrived + bs) =~= (rdata0 + arrived) + bs);
    assert(pending_bytes(app) + (pre_data + bs) =~= (pending_bytes(app) + pre_data) + bs);
}

/// Bookkeeping of one parse step: the frame decoded from the front of the
/// unread bytes moves from the receive image to the parsed-frame ledger, and
/// the bytes it occupied are exactly its encoding.
pub proof fn lemma_parse_step_image(
    rdata0: Seq<u8>,
    arrived: Seq<u8>,
    app: Seq<FrameModel>,
    cur: Seq<u8>,
)
    requires
        rdata0 + arrived == pending_bytes(app) + cur,
        spec_parse(cur) is Parsed,
    ensures
        ({
            let f = spec_parse(cur)->Parsed_frame;
            let n = spec_parse(cur)->Parsed_len;
            rdata0 + arrived == pending_bytes(app.push(f)) + cur.skip(n as int)
        }),
{
    let f = spec_parse(cur)->Parsed_frame;
    let n = spec_parse(cur)->Parsed_len;
    lemma_parse_exact(cur);
    lemma_pending_bytes_push(app, f);
    assert(cur =~= cur.take(n as int) + cur.skip(n as int));
    assert(pending_bytes(app) + cur =~= pending_bytes(app.push(f)) + cur.skip(n as int));
}

/// Outcome of one read pass of the driver's run loop.
enum RunRead {
    /// New bytes joined the receive buffer.
    Advanced,
    /// Would-block: reading pauses for the rest of this invocation.
    Pause,
    /// A zero-byte read: the peer closed the stream.
    Closed,
}

/// Outcome of one parse step of the driver.
pub enum ParseStep {
    /// One frame was decoded out of this many bytes; the caller consumes them.
    Consumed(usize, ConnectionState),
    /// Fewer bytes than one whole frame requires; nothing was consumed, and
    /// the driver must wait for more input rather than retry.
    Incomplete,
    /// The bytes cannot be any frame's encoding: a fatal protocol error.
    Fatal(TransportError),
}

impl Connection {
    /// The send side has work: unsent bytes in the send buffer, or queued
    /// outbound frames.
    pub fn can_write(&self, send_buffer: &Buffer) -> (r: bool)
        requires
            send_buffer.wf(),
        ensures
            r == (send_buffer@.data.len() > 0 || self@.frame_queue.len() > 0),
    {
        send_buffer.available_data() > 0 || !self.frame_queue.is_empty()
    }

    /// The receive buffer has free space to read into.
    pub fn can_read(&self, receive_buffer: &Buffer) -> (r: bool)
        requires
            receive_buffer.wf(),
        ensures
            r == (receive_buffer@.space > 0),
    {
        receive_buffer.available_space() > 0
    }

    /// The receive buffer has unread bytes to parse.
    pub fn can_parse(&self, receive_buffer: &Buffer) -> (r: bool)
        requires
            receive_buffer.wf(),
        ensures
            r == (receive_buffer@.data.len() > 0),
    {
        receive_buffer.available_data() > 0
    }

    /// Serializes queued outbound frames into the send buffer's free region,
    /// in FIFO order, as long as whole encodings fit. Returns the number of
    /// bytes written and the current state.
    pub fn serialize(&mut self, send_buffer: &mut Buffer) -> (r: (usize, ConnectionState))
        requires
            old(self)@.wf(),
            old(send_buffer).wf(),
        ensures
            final(self)@.wf(),
            final(send_buffer).wf(),
            ({
                let d = drain_queue(old(self)@.frame_queue, old(send_buffer)@.space);
                &&& final(self)@ == (ConnModel { frame_queue: d.0, ..old(self)@ })
                &&& final(send_buffer)@ == old(send_buffer)@.fill(d.1)
                &&& r.0 == d.1.len()
                &&& r.1 == old(self)@.state
            }),
    {
        let ghost d = drain_queue(old(self)@.frame_queue, old(send_buffer)@.space);
        let ghost acc = Seq::<u8>::empty();
        let space0 = send_buffer.available_space();
        let mut written: usize = 0;
        let mut blocked = false;
        proof {
            assert(old(send_buffer)@.fill(acc).data =~= old(send_buffer)@.data);
            assert(send_buffer@ == old(send_buffer)@.fill(acc));
        }
        while !blocked && self.frame_queue.len() > 0
            invariant
                self@.wf(),
                send_buffer.wf(),
                space0 == old(send_buffer)@.space,
                d == drain_queue(old(self)@.frame_queue, old(send_buffer)@.space),
                self@ == (ConnModel { frame_queue: self@.frame_queue, ..old(self)@ }),
                send_buffer@ == old(send_buffer)@.fill(acc),
                acc.len() <= old(send_buffer)@.space,
                written == acc.len(),
                !blocked ==> {
                    let cur = drain_queue(self@.frame_queue, send_buffer@.space);
                    &&& d.0 == cur.0
                    &&& d.1 == acc + cur.1
                },
                blocked ==> d.0 == self@.frame_queue && d.1 == acc,
            decreases (if blocked { 0int } else { 1int }), self.frame_queue@.len(),
        {
            let ghost q_pre = self@.frame_queue;
            let ghost space_pre = send_buffer@.space;
            let fr = &self.frame_queue[0];
            proof {
                assert(fr@ == self@.frame_queue[0]);
            }
            let encoded = fr.encode();
            if encoded.len() <= send_buffer.available_space() {
                proof {
                    assert(written + encoded@.len() <= space0);
                }
                written = written + encoded.len();
                send_buffer.push_bytes(&encoded);
                let _ = self.frame_queue.remove(0);
                proof {
                    assert forall|j: int|
                        0 <= j < self@.frame_queue.len() implies frame_wf(
                        #[trigger] self@.frame_queue[j],
                    ) by {
                        assert(self@.frame_queue[j] == q_pre[j + 1]);
                    }
                    lemma_wf_new_queue(
                        ConnModel { frame_queue: q_pre, ..self@ },
                        self@,
                    );
                    let acc2 = acc + encoded@;
                    assert(self@.frame_queue =~= q_pre.skip(1));
                    assert(self@.inbound =~= old(self)@.inbound);
                    assert(send_buffer@.data =~= old(send_buffer)@.fill(acc2).data);
                    assert(send_buffer@ == old(send_buffer)@.fill(acc2));
                    let cur_pre = drain_queue(q_pre, space_pre);
                    let cur_post = drain_queue(q_pre.skip(1), (space_pre - frame_len(q_pre[0])) as nat);
                    assert(cur_pre == (cur_post.0, frame_bytes(q_pre[0]) + cur_post.1));
                    assert(acc + (frame_bytes(q_pre[0]) + cur_post.1) =~= acc2 + cur_post.1);
                    acc = acc2;
                }
            } else {
                blocked = true;
                proof {
                    assert(drain_queue(q_pre, space_pre) == (q_pre, Seq::<u8>::empty()));
                    assert(d.1 =~= acc);
                }
            }
        }
        proof {
            if !blocked {
                assert(self@.frame_queue.len() == 0);
                assert(drain_queue(self@.frame_queue, send_buffer@.space)
                    == (self@.frame_queue, Seq::<u8>::empty()));
                assert(d.0 =~= self@.frame_queue);
                assert(d.1 =~= acc);
            }
        }
        (written, self.state)
    }

    /// Attempts to parse one frame out of the receive buffer's unread region,
    /// without consuming: a decoded frame joins the inbound event list and
    /// the caller consumes exactly the returned count; an incomplete prefix
    /// consumes nothing; a malformed prefix is fatal and drives the state to
    /// `Error`.
    pub fn parse(&mut self, receive_buffer: &Buffer) -> (r: ParseStep)
        requires
            old(self)@.wf(),
            receive_buffer.wf(),
        ensures
            final(self)@.wf(),
            (match r {
                ParseStep::Consumed(n, st) => {
                    &&& spec_parse(receive_buffer@.data) matches SpecParseResult::Parsed {
                        frame,
                        len,
                    } && n == len && final(self)@ == (ConnModel {
                        inbound: old(self)@.inbound.push(frame),
                        ..old(self)@
                    })
                    &&& 6 <= n <= receive_buffer@.data.len()
                    &&& st == old(self)@.state
                },
                ParseStep::Incomplete => spec_parse(receive_buffer@.data) is Incomplete
                    && final(self)@ == old(self)@,
                ParseStep::Fatal(e) => {
                    &&& spec_parse(receive_buffer@.data) is Malformed
                    &&& e == TransportError::ParseFailed
                    &&& final(self)@ == (ConnModel {
                        state: ConnectionState::Error,
                        ..old(self)@
                    })
                },
            }),
    {
        match decode_prefix(receive_buffer) {
            DecodeOutcome::Parsed(f, n) => {
                let st = self.state;
                self.inbound.push(f);
                proof {
                    assert(self@.inbound =~= old(self)@.inbound.push(f@));
                    assert(self@.frame_queue =~= old(self)@.frame_queue);
                    lemma_wf_same_tables(old(self)@, self@);
                }
                ParseStep::Consumed(n, st)
            },
            DecodeOutcome::Incomplete => ParseStep::Incomplete,
            DecodeOutcome::Malformed => {
                self.state = ConnectionState::Error;
                proof {
                    assert(self@.inbound =~= old(self)@.inbound);
                    assert(self@.frame_queue =~= old(self)@.frame_queue);
                    lemma_wf_same_tables(old(self)@, self@);
                }
                ParseStep::Fatal(TransportError::ParseFailed)
            },
        }
    }

    /// One write step: serializes queued frames into the send buffer, then
    /// attempts one non-blocking write of the buffer's unread region to the
    /// stream, consuming only the bytes actually written. Would-block leaves
    /// the serialized bytes queued in the buffer; any other stream failure
    /// drives the state to `Error`.
    pub fn write_to_stream<S: ByteStream>(
        &mut self,
        writer: &mut S,
        send_buffer: &mut Buffer,
    ) -> (r: Result<(usize, ConnectionState), TransportError>)
        requires
            old(self)@.wf(),
            old(send_buffer).wf(),
        ensures
            final(self)@.wf(),
            final(send_buffer).wf(),
            ({
                let d = drain_queue(old(self)@.frame_queue, old(send_buffer)@.space);
                let filled = old(send_buffer)@.fill(d.1);
                match r {
                    Ok((n, st)) => {
                        &&& n <= filled.data.len()
                        &&& final(send_buffer)@ == filled.consume(n as nat)
                        &&& final(self)@ == (ConnModel { frame_queue: d.0, ..old(self)@ })
                        &&& st == old(self)@.state
                    },
                    Err(e) => {
                        &&& final(send_buffer)@ == filled
                        &&& (e == TransportError::WouldBlock || e == TransportError::IoFailed)
                        &&& (e == TransportError::WouldBlock ==> final(self)@ == (ConnModel {
                            frame_queue: d.0,
                            ..old(self)@
                        }))
                        &&& (e == TransportError::IoFailed ==> final(self)@ == (ConnModel {
                            frame_queue: d.0,
                            state: ConnectionState::Error,
                            ..old(self)@
                        }))
                    },
                }
            }),
    {
        let _ = self.serialize(send_buffer);
        let data = send_buffer.data();
        match writer.stream_write(&data) {
            WriteOutcome::Wrote(n) => {
                send_buffer.consume(n);
                Ok((n, self.state))
            },
            WriteOutcome::WouldBlock => Err(TransportError::WouldBlock),
            WriteOutcome::Failed => {
                let ghost m1 = self@;
                self.state = ConnectionState::Error;
                proof {
                    assert(self@.frame_queue =~= m1.frame_queue);
                    assert(self@.inbound =~= m1.inbound);
                    lemma_wf_same_tables(m1, self@);
                }
                Err(TransportError::IoFailed)
            },
        }
    }

    /// One read step. Reading while `Initial` or `Error` is a sequencing
    /// fault: it fails immediately, without touching the stream, and drives
    /// the state to `Error`. Otherwise attempts one non-blocking read into
    /// the receive buffer's free region; a successful read of zero bytes
    /// signals that the peer closed the stream and drives the terminal
    /// `Closed` state. Any other stream failure drives the state to `Error`.
    pub fn read_from_stream<S: ByteStream>(
        &mut self,
        reader: &mut S,
        receive_buffer: &mut Buffer,
    ) -> (r: Result<(usize, ConnectionState), TransportError>)
        requires
            old(self)@.wf(),
            old(receive_buffer).wf(),
        ensures
            final(self)@.wf(),
            final(receive_buffer).wf(),
            (old(self)@.state == ConnectionState::Initial || old(self)@.state
                == ConnectionState::Error) ==> {
                &&& r == Err::<(usize, ConnectionState), TransportError>(
                    TransportError::InvalidState,
                )
                &&& final(self)@ == (ConnModel { state: ConnectionState::Error, ..old(self)@ })
                &&& final(receive_buffer)@ == old(receive_buffer)@
                &&& *final(reader) == *old(reader)
            },
            !(old(self)@.state == ConnectionState::Initial || old(self)@.state
                == ConnectionState::Error) ==> (match r {
                Ok((n, st)) => {
                    &&& n <= old(receive_buffer)@.space
                    &&& exists|bs: Seq<u8>|
                        bs.len() == n && final(receive_buffer)@ == old(receive_buffer)@.fill(bs)
                    &&& (n == 0 ==> final(self)@ == (ConnModel {
                        state: ConnectionState::Closed,
                        ..old(self)@
                    }))
                    &&& (n > 0 ==> final(self)@ == old(self)@)
                    &&& st == final(self)@.state
                },
                Err(e) => {
                    &&& final(receive_buffer)@ == old(receive_buffer)@
                    &&& (e == TransportError::WouldBlock || e == TransportError::IoFailed)
                    &&& (e == TransportError::WouldBlock ==> final(self)@ == old(self)@)
                    &&& (e == TransportError::IoFailed ==> final(self)@ == (ConnModel {
                        state: ConnectionState::Error,
                        ..old(self)@
                    }))
                },
            }),
    {
        if self.state == ConnectionState::Initial || self.state == ConnectionState::Error {
            self.state = ConnectionState::Error;
            proof {
                assert(self@.frame_queue =~= old(self)@.frame_queue);
                assert(self@.inbound =~= old(self)@.inbound);
                lemma_wf_same_tables(old(self)@, self@);
            }
            return Err(TransportError::InvalidState);
        }
        let max = receive_buffer.available_space();
        match reader.stream_read(max) {
            ReadOutcome::Data(d) => {
                let n = d.len();
                receive_buffer.push_bytes(&d);
                if n == 0 {
                    self.state = ConnectionState::Closed;
                }
                proof {
                    assert(receive_buffer@ == old(receive_buffer)@.fill(d@));
                    assert(self@.frame_queue =~= old(self)@.frame_queue);
                    assert(self@.inbound =~= old(self)@.inbound);
                    lemma_wf_same_tables(old(self)@, self@);
                }
                Ok((n, self.state))
            },
            ReadOutcome::WouldBlock => Err(TransportError::WouldBlock),
            ReadOutcome::Failed => {
                self.state = ConnectionState::Error;
                proof {
                    assert(self@.frame_queue =~= old(self)@.frame_queue);
                    assert(self@.inbound =~= old(self)@.inbound);
                    lemma_wf_same_tables(old(self)@, self@);
                }
                Err(TransportError::IoFailed)
            },
        }
    }

    /// One write pass of the run loop: serializes queued frames into the
    /// send buffer, then attempts one non-blocking stream write. Returns
    /// whether writing must pause for the rest of this invocation, or the
    /// fatal error to propagate, together with the extended ledger of bytes
    /// handed to the stream: the outbound image (buffered bytes followed by
    /// queued encodings) loses exactly what joined the ledger.
    fn write_pass<S: ByteStream>(
        &mut self,
        stream: &mut S,
        send_buffer: &mut Buffer,
        sent: Ghost<Seq<u8>>,
    ) -> (r: (Result<bool, TransportError>, Ghost<Seq<u8>>))
        requires
            old(self)@.wf(),
            old(send_buffer).wf(),
        ensures
            final(self)@.wf(),
            final(send_buffer).wf(),
            final(self)@ == (ConnModel {
                state: final(self)@.state,
                frame_queue: final(self)@.frame_queue,
                ..old(self)@
            }),
            sent@ + (old(send_buffer)@.data + pending_bytes(old(self)@.frame_queue)) == r.1@
                + (final(send_buffer)@.data + pending_bytes(final(self)@.frame_queue)),
            queue_bytes(final(self)@.frame_queue) + final(send_buffer)@.data.len() <= queue_bytes(
                old(self)@.frame_queue,
            ) + old(send_buffer)@.data.len(),
            (match r.0 {
                Ok(pause) => {
                    &&& final(self)@.state == old(self)@.state
                    &&& (!pause ==> queue_bytes(final(self)@.frame_queue)
                        + final(send_buffer)@.data.len() < queue_bytes(old(self)@.frame_queue)
                        + old(send_buffer)@.data.len())
                },
                Err(e) => e == TransportError::IoFailed && final(self)@.state
                    == ConnectionState::Error,
            }),
    {
        let ghost q_pre = self@.frame_queue;
        let ghost data_pre = send_buffer@.data;
        let ghost space_pre = send_buffer@.space;
        let ghost d = drain_queue(q_pre, space_pre);
        proof {
            lemma_drain_queue_bytes(q_pre, space_pre);
        }
        match self.write_to_stream(stream, send_buffer) {
            Ok((n, _st)) => {
                proof {
                    lemma_write_step_image(sent@, data_pre, q_pre, space_pre, n as int);
                }
                (Ok(n == 0), Ghost(sent@ + (data_pre + d.1).take(n as int)))
            },
            Err(e) => {
                proof {
                    lemma_write_step_image(sent@, data_pre, q_pre, space_pre, 0);
                    assert(sent@ + (data_pre + d.1).take(0) =~= sent@);
                }
                if matches!(e, TransportError::WouldBlock) {
                    (Ok(true), Ghost(sent@))
                } else {
                    (Err(e), Ghost(sent@))
                }
            },
        }
    }

    /// One read pass of the run loop: one non-blocking stream read into the
    /// receive buffer, extending the ledger of arrived bytes.
    fn read_pass<S: ByteStream>(
        &mut self,
        stream: &mut S,
        receive_buffer: &mut Buffer,
        ledger: Ghost<(Seq<u8>, Seq<u8>, Seq<FrameModel>)>,
    ) -> (r: (Result<RunRead, TransportError>, Ghost<Seq<u8>>))
        requires
            old(self)@.wf(),
            old(receive_buffer).wf(),
            ledger@.0 + ledger@.1 == pending_bytes(ledger@.2) + old(receive_buffer)@.data,
        ensures
            final(self)@.wf(),
            final(receive_buffer).wf(),
            final(self)@ == (ConnModel { state: final(self)@.state, ..old(self)@ }),
            ledger@.0 + r.1@ == pending_bytes(ledger@.2) + final(receive_buffer)@.data,
            2 * final(receive_buffer)@.space + final(receive_buffer)@.data.len() <= 2 * old(
                receive_buffer,
            )@.space + old(receive_buffer)@.data.len(),
            (match r.0 {
                Ok(k) => {
                    &&& (k is Closed ==> final(self)@.state == ConnectionState::Closed)
                    &&& (!(k is Closed) ==> final(self)@.state == old(self)@.state)
                    &&& (k is Advanced ==> 2 * final(receive_buffer)@.space
                        + final(receive_buffer)@.data.len() < 2 * old(receive_buffer)@.space + old(
                        receive_buffer,
                    )@.data.len())
                },
                Err(e) => {
                    &&& final(self)@.state == ConnectionState::Error
                    &&& e != TransportError::WouldBlock
                    &&& e != TransportError::ConnectionAborted
                    &&& e != TransportError::ParseFailed
                    &&& (e == TransportError::InvalidState ==> (old(self)@.state
                        == ConnectionState::Initial || old(self)@.state == ConnectionState::Error)
                        && final(receive_buffer)@ == old(receive_buffer)@)
                },
            }),
    {
        let ghost rb_pre = receive_buffer@;
        match self.read_from_stream(stream, receive_buffer) {
            Ok((n, _st)) => {
                proof {
                    let bs = choose|bs: Seq<u8>|
                        bs.len() == n && receive_buffer@ == rb_pre.fill(bs);
                    lemma_read_step_image(ledger@.0, ledger@.1, ledger@.2, rb_pre.data, bs);
                }
                let ghost bs = choose|bs: Seq<u8>|
                    bs.len() == n && receive_buffer@ == rb_pre.fill(bs);
                if n == 0 {
                    (Ok(RunRead::Closed), Ghost(ledger@.1 + bs))
                } else {
                    (Ok(RunRead::Advanced), Ghost(ledger@.1 + bs))
                }
            },
            Err(e) => {
                if matches!(e, TransportError::WouldBlock) {
                    (Ok(RunRead::Pause), Ghost(ledger@.1))
                } else {
                    (Err(e), Ghost(ledger@.1))
                }
            },
        }
    }

    /// One parse pass of the run loop: one attempt to decode the frame at
    /// the front of the receive buffer. A decoded frame moves from the
    /// receive image to the inbound event list; an incomplete prefix pauses
    /// parsing for the rest of this invocation.
    fn parse_pass(
        &mut self,
        receive_buffer: &mut Buffer,
        ledger: Ghost<(Seq<u8>, Seq<u8>, int)>,
    ) -> (r: Result<bool, TransportError>)
        requires
            old(self)@.wf(),
            old(receive_buffer).wf(),
            0 <= ledger@.2 <= old(self)@.inbound.len(),
            ledger@.0 + ledger@.1 == pending_bytes(old(self)@.inbound.skip(ledger@.2)) + old(
                receive_buffer,
            )@.data,
        ensures
            final(self)@.wf(),
            final(receive_buffer).wf(),
            final(self)@ == (ConnModel {
                state: final(self)@.state,
                inbound: final(self)@.inbound,
                ..old(self)@
            }),
            final(self)@.inbound.len() >= old(self)@.inbound.len(),
            final(self)@.inbound.take(ledger@.2) == old(self)@.inbound.take(ledger@.2),
            ledger@.0 + ledger@.1 == pending_bytes(final(self)@.inbound.skip(ledger@.2))
                + final(receive_buffer)@.data,
            final(receive_buffer)@.space == old(receive_buffer)@.space,
            final(receive_buffer)@.data.len() <= old(receive_buffer)@.data.len(),
            (match r {
                Ok(pause) => {
                    &&& final(self)@.state == old(self)@.state
                    &&& (!pause ==> spec_parse(old(receive_buffer)@.data) is Parsed
                        && final(receive_buffer)@.data.len() < old(receive_buffer)@.data.len())
                    &&& (pause ==> spec_parse(old(receive_buffer)@.data) is Incomplete
                        && final(receive_buffer)@ == old(receive_buffer)@ && final(self)@ == old(
                        self,
                    )@)
                },
                Err(e) => {
                    &&& e == TransportError::ParseFailed
                    &&& final(self)@.state == ConnectionState::Error
                    &&& spec_parse(final(receive_buffer)@.data) is Malformed
                    &&& final(receive_buffer)@ == old(receive_buffer)@
                },
            }),
    {
        let ghost cur = receive_buffer@.data;
        let ghost app_pre = self@.inbound.skip(ledger@.2);
        match self.parse(receive_buffer) {
            ParseStep::Consumed(n, _st) => {
                proof {
                    let f = spec_parse(cur)->Parsed_frame;
                    assert(self@.inbound.take(ledger@.2) =~= old(self)@.inbound.take(ledger@.2));
                    assert(self@.inbound.skip(ledger@.2) =~= app_pre.push(f));
                    lemma_parse_step_image(ledger@.0, ledger@.1, app_pre, cur);
                }
                receive_buffer.consume(n);
                Ok(false)
            },
            ParseStep::Incomplete => Ok(true),
            ParseStep::Fatal(e) => Err(e),
        }
    }

    /// The run loop of the connection driver: performs exactly the work
    /// currently possible without blocking — per pass, at most one write
    /// attempt, one read attempt and one parse attempt, in that fixed order —
    /// and returns the current state once no further progress is possible
    /// without an external event. Would-block and an incomplete frame are
    /// absorbed as per-invocation flags and never escape as errors; any other
    /// failure drives the state to `Error` and is propagated exactly once.
    /// Once the state is `Error`, the call short-circuits immediately without
    /// touching the stream. The send side loses only a prefix of what it
    /// owes; the inbound event list grows only by frames whose encodings are
    /// the bytes that went through the receive buffer.
    #[verifier::rlimit(100)]
    pub fn run<S: ByteStream>(
        &mut self,
        stream: &mut S,
        send_buffer: &mut Buffer,
        receive_buffer: &mut Buffer,
    ) -> (r: Result<ConnectionState, TransportError>)
        requires
            old(self)@.wf(),
            old(send_buffer).wf(),
            old(receive_buffer).wf(),
        ensures
            final(self)@.wf(),
            final(send_buffer).wf(),
            final(receive_buffer).wf(),
            old(self)@.state == ConnectionState::Error ==> {
                &&& final(self)@ == old(self)@
                &&& final(send_buffer)@ == old(send_buffer)@
                &&& final(receive_buffer)@ == old(receive_buffer)@
                &&& *final(stream) == *old(stream)
            },
            (r == Err::<ConnectionState, TransportError>(TransportError::ConnectionAborted))
                <==> old(self)@.state == ConnectionState::Error,
            (match r {
                Ok(st) => st == final(self)@.state && final(self)@.state != ConnectionState::Error,
                Err(e) => {
                    &&& final(self)@.state == ConnectionState::Error
                    &&& e != TransportError::WouldBlock
                    &&& (e == TransportError::InvalidState ==> old(self)@.state
                        == ConnectionState::Initial)
                    &&& (e == TransportError::ParseFailed ==> spec_parse(
                        final(receive_buffer)@.data,
                    ) is Malformed)
                },
            }),
            (old(self)@.state != ConnectionState::Error && old(self)@.frame_queue.len() == 0
                && old(send_buffer)@.data.len() == 0 && old(receive_buffer)@.space + old(
                receive_buffer,
            )@.consumed == 0 && old(receive_buffer)@.data.len() == 0) ==> r == Ok::<
                ConnectionState,
                TransportError,
            >(old(self)@.state),
            final(self)@.pending == old(self)@.pending,
            final(self)@.channels == old(self)@.channels,
            final(self)@.next_request_id == old(self)@.next_request_id,
            final(self)@.next_channel_id == old(self)@.next_channel_id,
            exists|sent: Seq<u8>|
                old(send_buffer)@.data + pending_bytes(old(self)@.frame_queue) == sent
                    + (final(send_buffer)@.data + pending_bytes(final(self)@.frame_queue)),
            final(self)@.inbound.len() >= old(self)@.inbound.len(),
            final(self)@.inbound.take(old(self)@.inbound.len() as int) == old(self)@.inbound,
    {
        if self.state == ConnectionState::Error {
            proof {
                let out0 = old(send_buffer)@.data + pending_bytes(old(self)@.frame_queue);
                assert(out0 =~= Seq::<u8>::empty() + out0);
                assert(old(self)@.inbound.take(old(self)@.inbound.len() as int) =~= old(
                    self,
                )@.inbound);
            }
            return Err(TransportError::ConnectionAborted);
        }
        send_buffer.shift();
        receive_buffer.shift();
        if self.frame_queue.is_empty() && send_buffer.available_data() == 0
            && receive_buffer.available_space() == 0 && receive_buffer.available_data() == 0 {
            proof {
                let out0 = old(send_buffer)@.data + pending_bytes(old(self)@.frame_queue);
                assert(out0 =~= Seq::<u8>::empty() + out0);
                assert(self@.inbound.take(old(self)@.inbound.len() as int) =~= old(self)@.inbound);
            }
            return Ok(self.state);
        }
        let ghost sent = Seq::<u8>::empty();
        proof {
            assert(old(send_buffer)@.data + pending_bytes(old(self)@.frame_queue) =~= sent + (
            send_buffer@.data + pending_bytes(self@.frame_queue)));
            assert(self@.inbound.take(old(self)@.inbound.len() as int) =~= old(self)@.inbound);
        }
        let mut write_would_block = false;
        let mut read_would_block = false;
        let mut parse_incomplete = false;
        loop
            invariant
                self@.wf(),
                send_buffer.wf(),
                receive_buffer.wf(),
                self@.state == old(self)@.state,
                old(self)@.state != ConnectionState::Error,
                self@ == (ConnModel {
                    state: self@.state,
                    frame_queue: self@.frame_queue,
                    inbound: self@.inbound,
                    ..old(self)@
                }),
                old(send_buffer)@.data + pending_bytes(old(self)@.frame_queue) == sent + (
                send_buffer@.data + pending_bytes(self@.frame_queue)),
                self@.inbound.len() >= old(self)@.inbound.len(),
                self@.inbound.take(old(self)@.inbound.len() as int) == old(self)@.inbound,
                !(old(self)@.frame_queue.len() == 0 && old(send_buffer)@.data.len() == 0 && old(
                    receive_buffer,
                )@.space + old(receive_buffer)@.consumed == 0 && old(receive_buffer)@.data.len()
                    == 0),
            decreases (if write_would_block { 0int } else { 1int }) + (if read_would_block {
                0int
            } else {
                1int
            }) + (if parse_incomplete { 0int } else { 1int }) + queue_bytes(self@.frame_queue)
                + send_buffer@.data.len() + 2 * receive_buffer@.space
                + receive_buffer@.data.len(),
        {
            let continue_writing = !write_would_block && self.can_write(send_buffer);
            let continue_reading = !read_would_block && self.can_read(receive_buffer);
            let continue_parsing = !parse_incomplete && self.can_parse(receive_buffer);

            if !continue_writing && !continue_reading && !continue_parsing {
                return Ok(self.state);
            }

            if continue_writing {
                let (outcome, ledger) = self.write_pass(stream, send_buffer, Ghost(sent));
                proof {
                    sent = ledger@;
                }
                match outcome {
                    Ok(pause) => {
                        if pause {
                            write_would_block = true;
                        }
                    },
                    Err(e) => {
                        return Err(e);
                    },
                }
            }

            if continue_reading {
                let ghost app_pre = self@.inbound.skip(old(self)@.inbound.len() as int);
                let ghost base = pending_bytes(app_pre) + receive_buffer@.data;
                proof {
                    assert(base + Seq::<u8>::empty() =~= base);
                }
                let (outcome, _ledger) = self.read_pass(
                    stream,
                    receive_buffer,
                    Ghost((base, Seq::<u8>::empty(), app_pre)),
                );
                match outcome {
                    Ok(RunRead::Advanced) => {
                    },
                    Ok(RunRead::Pause) => {
                        read_would_block = true;
                    },
                    Ok(RunRead::Closed) => {
                        proof {
                            assert(old(send_buffer)@.data + pending_bytes(old(self)@.frame_queue)
                                == sent + (send_buffer@.data + pending_bytes(self@.frame_queue)));
                        }
                        return Ok(self.state);
                    },
                    Err(e) => {
                        proof {
                            assert(old(send_buffer)@.data + pending_bytes(old(self)@.frame_queue)
                                == sent + (send_buffer@.data + pending_bytes(self@.frame_queue)));
                        }
                        return Err(e);
                    },
                }
            }

            if continue_parsing {
                let ghost k = old(self)@.inbound.len() as int;
                let ghost base = pending_bytes(self@.inbound.skip(k)) + receive_buffer@.data;
                proof {
                    assert(base + Seq::<u8>::empty() =~= base);
                }
                match self.parse_pass(receive_buffer, Ghost((base, Seq::<u8>::empty(), k))) {
                    Ok(pause) => {
                        if pause {
                            parse_incomplete = true;
                        }
                    },
                    Err(e) => {
                        return Err(e);
                    },
                }
            }
        }
    }
}

} // verus!
