//! Transport: the buffers, the protocol state and the stream, composed.
//!
//! A [`Transport`] owns exactly one send buffer, one receive buffer, one
//! [`Connection`] and the underlying stream. An embedding shares it behind
//! one mutual-exclusion lock acquired with try-acquire only; every function
//! here runs with the transport exclusively borrowed, which is what such an
//! embedding provides while it holds the lock. [`wait_for_answer`] is one
//! poll of the request correlator: it drives buffered frames into the state
//! machine and reports whether the polled request's reply has been recorded.

use vstd::prelude::*;
use crate::buffer::Buffer;
use crate::connection::{
    Connection, ConnModel, ConnectionState, TransportError, RequestId, ChannelEntry,
    PendingRequest, channel_awaiting_update, drain_events, apply_first, step_event,
    lemma_drain_finished_monotone,
};
use crate::driver::{ByteStream, drain_queue, ParseStep};
use crate::frame::{
    FrameModel, MethodModel, spec_parse, SpecParseResult, parse_frames, lemma_parse_frames_step,
};

verus! {

/// Size in bytes of each of the two buffers a transport is created with.
pub const BUFFER_CAPACITY: usize = 8192;

/// Plain configuration record, consumed once at connect time.
#[derive(Clone, Debug, PartialEq)]
pub struct ConnectionOptions {
    pub username: String,
    pub password: String,
    pub heartbeat: u16,
}

impl Default for ConnectionOptions {
    /// The broker's conventional guest credentials and a 60-second heartbeat.
    fn default() -> (r: ConnectionOptions)
        ensures
            r.username@ == "guest"@,
            r.password@ == "guest"@,
            r.heartbeat == 60,
    {
        ConnectionOptions {
            username: String::from_str("guest"),
            password: String::from_str("guest"),
            heartbeat: 60,
        }
    }
}

/// Outcome of one correlator poll.
#[derive(Clone, Copy, Debug, PartialEq, Eq, Structural)]
pub enum Answer {
    /// The polled request's terminal reply has been recorded.
    Ready,
    /// Not finished yet; poll again after the next external event.
    NotReady,
    /// The connection failed; the request will never finish.
    Failed(TransportError),
}

/// Every event of a drain leaves the set of pending ids intact.
pub proof fn lemma_drain_has_pending(m: ConnModel, id: RequestId)
    requires
        m.has_pending(id),
    ensures
        drain_events(m).has_pending(id),
    decreases m.inbound.len(),
{
    if m.inbound.len() == 0 {
    } else {
        let k = choose|k: int| 0 <= k < m.pending.len() && m.pending[k].id == id;
        assert(step_event(m, m.inbound[0]).pending[k].id == id);
        assert(apply_first(m).pending == step_event(m, m.inbound[0]).pending);
        lemma_drain_has_pending(apply_first(m), id);
    }
}

/// No event of a drain puts the state machine into `Error`.
pub proof fn lemma_drain_keeps_state_sound(m: ConnModel)
    requires
        m.state != ConnectionState::Error,
    ensures
        drain_events(m).state != ConnectionState::Error,
    decreases m.inbound.len(),
{
    if m.inbound.len() == 0 {
    } else {
        lemma_drain_keeps_state_sound(apply_first(m));
    }
}

/// A drain handles every buffered event: none is left over.
pub proof fn lemma_drain_empties(m: ConnModel)
    ensures
        drain_events(m).inbound.len() == 0,
    decreases m.inbound.len(),
{
    if m.inbound.len() == 0 {
    } else {
        lemma_drain_empties(apply_first(m));
    }
}

/// A drain never touches the id allocators.
pub proof fn lemma_drain_keeps_ids(m: ConnModel)
    ensures
        drain_events(m).next_request_id == m.next_request_id,
        drain_events(m).next_channel_id == m.next_channel_id,
    decreases m.inbound.len(),
{
    if m.inbound.len() == 0 {
    } else {
        lemma_drain_keeps_ids(apply_first(m));
    }
}

/// The protocol state after the whole frames at the front of `bytes` have
/// been parsed into the inbound event list, not yet handled.
pub open spec fn fed_with(m: ConnModel, bytes: Seq<u8>) -> ConnModel {
    ConnModel { inbound: m.inbound + parse_frames(bytes).0, ..m }
}

/// The transport: one send buffer, one receive buffer, one protocol state
/// machine and the stream, composed behind one owner.
pub struct Transport<S> {
    pub stream: S,
    pub send_buffer: Buffer,
    pub receive_buffer: Buffer,
    pub conn: Connection,
}

impl<S: ByteStream> Transport<S> {
    /// All parts are well-formed.
    pub open spec fn wf(self) -> bool {
        &&& self.conn@.wf()
        &&& self.send_buffer.wf()
        &&& self.receive_buffer.wf()
    }

    /// Takes a stream and uses it to start a connection: fresh buffers, and
    /// the connection-level open request (carrying the heartbeat interval)
    /// queued outbound, in state `Connecting`. The handshake completes once
    /// the driver has run and the open-reply has been handled.
    pub fn connect(stream: S, options: &ConnectionOptions) -> (r: Transport<S>)
        ensures
            r.wf(),
            r.conn@.state == ConnectionState::Connecting,
            r.conn@.frame_queue == seq![
                FrameModel {
                    channel_id: 0,
                    method: MethodModel::ConnectionOpen { heartbeat: options.heartbeat },
                },
            ],
            r.conn@.inbound.len() == 0,
            r.conn@.channels.len() == 0,
            r.conn@.pending.len() == 0,
            r.conn@.next_channel_id == 1,
            r.conn@.next_request_id == 1,
            r.send_buffer@.data.len() == 0,
            r.send_buffer@.space == BUFFER_CAPACITY,
            r.receive_buffer@.data.len() == 0,
            r.receive_buffer@.space == BUFFER_CAPACITY,
    {
        let mut conn = Connection::new();
        let _ = conn.connect(options.heartbeat);
        proof {
            assert(conn@.frame_queue =~= seq![
                FrameModel {
                    channel_id: 0,
                    method: MethodModel::ConnectionOpen { heartbeat: options.heartbeat },
                },
            ]);
        }
        Transport {
            stream,
            send_buffer: Buffer::new(BUFFER_CAPACITY),
            receive_buffer: Buffer::new(BUFFER_CAPACITY),
            conn,
        }
    }

    /// Serializes queued outbound frames into the send buffer and attempts
    /// one non-blocking write; would-block is absorbed. The receive side is
    /// untouched; the protocol state is untouched but for the frame queue,
    /// except that a stream failure drives it to `Error`.
    pub fn send_frames(&mut self) -> (r: Result<(), TransportError>)
        requires
            old(self).wf(),
        ensures
            final(self).wf(),
            final(self).receive_buffer == old(self).receive_buffer,
            ({
                let d = drain_queue(old(self).conn@.frame_queue, old(self).send_buffer@.space);
                let filled = old(self).send_buffer@.fill(d.1);
                &&& exists|n: nat|
                    n <= filled.data.len() && final(self).send_buffer@ == filled.consume(n)
                &&& match r {
                    Ok(()) => final(self).conn@ == (ConnModel {
                        frame_queue: d.0,
                        ..old(self).conn@
                    }),
                    Err(e) => e == TransportError::IoFailed && final(self).conn@ == (ConnModel {
                        frame_queue: d.0,
                        state: ConnectionState::Error,
                        ..old(self).conn@
                    }),
                }
            }),
    {
        let ghost filled = old(self).send_buffer@.fill(
            drain_queue(old(self).conn@.frame_queue, old(self).send_buffer@.space).1,
        );
        match self.conn.write_to_stream(&mut self.stream, &mut self.send_buffer) {
            Ok(_) => Ok(()),
            Err(e) => {
                proof {
                    assert(self.send_buffer@.data =~= filled.consume(0).data);
                    assert(self.send_buffer@ == filled.consume(0));
                }
                if matches!(e, TransportError::WouldBlock) {
                    Ok(())
                } else {
                    Err(e)
                }
            },
        }
    }

    /// Parses every whole frame already buffered on the receive side —
    /// consuming exactly the bytes those frames occupy — and drives the
    /// resulting events into the protocol state, oldest first. What remains
    /// buffered is less than one whole frame: transient incompleteness stops
    /// parsing until more input arrives, and a malformed remainder is fatal.
    /// Idempotent: with nothing new buffered this is a no-op. Completions
    /// are never lost: every request already finished stays finished.
    pub fn handle_frames(&mut self) -> (r: Result<(), TransportError>)
        requires
            old(self).wf(),
        ensures
            final(self).wf(),
            final(self).stream == old(self).stream,
            final(self).send_buffer == old(self).send_buffer,
            (r == Err::<(), TransportError>(TransportError::ConnectionAborted)) <==> old(
                self,
            ).conn@.state == ConnectionState::Error,
            old(self).conn@.state == ConnectionState::Error ==> *final(self) == *old(self),
            forall|id: RequestId|
                old(self).conn@.finished(id) ==> final(self).conn@.finished(id),
            forall|id: RequestId|
                old(self).conn@.has_pending(id) ==> final(self).conn@.has_pending(id),
            old(self).conn@.state != ConnectionState::Error ==> ({
                let data0 = old(self).receive_buffer@.data;
                let pf = parse_frames(data0);
                let rest = data0.skip(pf.1 as int);
                &&& final(self).receive_buffer@ == old(self).receive_buffer@.consume(pf.1)
                &&& match r {
                    Ok(()) => {
                        &&& spec_parse(rest) is Incomplete
                        &&& final(self).conn@ == drain_events(fed_with(old(self).conn@, data0))
                        &&& final(self).conn@.inbound.len() == 0
                        &&& final(self).conn@.state != ConnectionState::Error
                    },
                    Err(e) => {
                        &&& e == TransportError::ParseFailed
                        &&& spec_parse(rest) is Malformed
                        &&& final(self).conn@ == (ConnModel {
                            state: ConnectionState::Error,
                            ..fed_with(old(self).conn@, data0)
                        })
                    },
                }
            }),
    {
        if self.conn.state == ConnectionState::Error {
            return Err(TransportError::ConnectionAborted);
        }
        let ghost data0 = self.receive_buffer@.data;
        let ghost eaten = Seq::<FrameModel>::empty();
        let ghost nc: nat = 0;
        proof {
            assert(old(self).conn@.inbound + eaten =~= old(self).conn@.inbound);
            assert(eaten + parse_frames(data0).0 =~= parse_frames(data0).0);
            assert(self.receive_buffer@.data =~= old(self).receive_buffer@.consume(0).data);
            assert(self.receive_buffer@ == old(self).receive_buffer@.consume(0));
        }
        let mut done = false;
        let mut failed = false;
        while !done && !failed
            invariant
                self.conn@.wf(),
                self.receive_buffer.wf(),
                self.stream == old(self).stream,
                self.send_buffer == old(self).send_buffer,
                data0 == old(self).receive_buffer@.data,
                old(self).conn@.state != ConnectionState::Error,
                self.conn@ == (ConnModel {
                    state: self.conn@.state,
                    inbound: self.conn@.inbound,
                    ..old(self).conn@
                }),
                !failed ==> self.conn@.state == old(self).conn@.state,
                failed ==> self.conn@.state == ConnectionState::Error,
                self.conn@.inbound == old(self).conn@.inbound + eaten,
                nc <= data0.len(),
                self.receive_buffer@ == old(self).receive_buffer@.consume(nc),
                parse_frames(data0).0 == eaten + parse_frames(self.receive_buffer@.data).0,
                parse_frames(data0).1 == nc + parse_frames(self.receive_buffer@.data).1,
                done ==> spec_parse(self.receive_buffer@.data) is Incomplete,
                failed ==> spec_parse(self.receive_buffer@.data) is Malformed,
            decreases (if done || failed { 0int } else { 1int }), self.receive_buffer@.data.len(),
        {
            let ghost cur = self.receive_buffer@.data;
            match self.conn.parse(&self.receive_buffer) {
                ParseStep::Consumed(n, _st) => {
                    let ghost nc_pre = nc;
                    proof {
                        let f = spec_parse(cur)->Parsed_frame;
                        lemma_parse_frames_step(cur);
                        assert(self.conn@.inbound =~= old(self).conn@.inbound + eaten.push(f));
                        assert(eaten + (seq![f] + parse_frames(cur.skip(n as int)).0)
                            =~= eaten.push(f) + parse_frames(cur.skip(n as int)).0);
                        eaten = eaten.push(f);
                        nc = (nc + n) as nat;
                    }
                    self.receive_buffer.consume(n);
                    proof {
                        assert(cur == data0.skip(nc_pre as int));
                        assert(self.receive_buffer@.data == cur.skip(n as int));
                        assert(data0.skip(nc_pre as int).skip(n as int) =~= data0.skip(nc as int));
                        assert(self.receive_buffer@.data =~= old(
                            self,
                        ).receive_buffer@.consume(nc).data);
                        assert(self.receive_buffer@ == old(self).receive_buffer@.consume(nc));
                    }
                },
                ParseStep::Incomplete => {
                    done = true;
                },
                ParseStep::Fatal(_e) => {
                    failed = true;
                },
            }
        }
        proof {
            assert(parse_frames(self.receive_buffer@.data) == (Seq::<FrameModel>::empty(), 0nat));
            assert(parse_frames(data0).0 =~= eaten);
            assert(parse_frames(data0).1 == nc);
            assert(self.conn@.inbound =~= old(self).conn@.inbound + parse_frames(data0).0);
        }
        if failed {
            proof {
                assert(self.conn@ == (ConnModel {
                    state: ConnectionState::Error,
                    ..fed_with(old(self).conn@, data0)
                }));
            }
            return Err(TransportError::ParseFailed);
        }
        let ghost pre = self.conn@;
        self.conn.handle_frames();
        proof {
            assert(pre == fed_with(old(self).conn@, data0));
            assert(final(self).conn@ == drain_events(pre));
            lemma_drain_empties(pre);
            lemma_drain_keeps_state_sound(pre);
            assert forall|id: RequestId|
                old(self).conn@.finished(id) implies final(self).conn@.finished(id) by {
                lemma_drain_finished_monotone(pre, id);
            }
            assert forall|id: RequestId|
                old(self).conn@.has_pending(id) implies final(self).conn@.has_pending(id) by {
                lemma_drain_has_pending(pre, id);
            }
        }
        Ok(())
    }

    /// Allocates the next unused channel id, enqueues the open-channel
    /// request under a fresh request id, sends what can be sent without
    /// blocking, and handles whatever replies are already buffered. Returns
    /// the channel id and the request id to poll for with
    /// [`wait_for_answer`]. Once the connection is in the terminal `Error`
    /// state — and only then — the call short-circuits with
    /// `ConnectionAborted`, touching nothing.
    pub fn create_channel(&mut self) -> (r: Result<(u16, RequestId), TransportError>)
        requires
            old(self).wf(),
            old(self).conn@.next_channel_id < u16::MAX,
            old(self).conn@.next_request_id < u64::MAX,
        ensures
            final(self).wf(),
            (r == Err::<(u16, RequestId), TransportError>(TransportError::ConnectionAborted))
                <==> old(self).conn@.state == ConnectionState::Error,
            old(self).conn@.state == ConnectionState::Error ==> *final(self) == *old(self),
            (match r {
                Ok((channel_id, request_id)) => ({
                    let m0 = old(self).conn@;
                    let m1 = ConnModel {
                        next_channel_id: (m0.next_channel_id + 1) as u16,
                        channels: m0.channels.push(
                            ChannelEntry { id: m0.next_channel_id, open: false, awaiting: None },
                        ),
                        ..m0
                    };
                    let m2 = ConnModel {
                        next_request_id: (m0.next_request_id + 1) as u64,
                        frame_queue: m1.frame_queue.push(
                            FrameModel {
                                channel_id: m0.next_channel_id,
                                method: MethodModel::ChannelOpen { name: Seq::<u8>::empty() },
                            },
                        ),
                        channels: Seq::new(
                            m1.channels.len(),
                            |i: int| channel_awaiting_update(
                                m1.channels[i],
                                m0.next_channel_id,
                                m0.next_request_id,
                            ),
                        ),
                        pending: m1.pending.push(
                            PendingRequest { id: m0.next_request_id, done: false },
                        ),
                        ..m1
                    };
                    let m3 = ConnModel {
                        frame_queue: drain_queue(
                            m2.frame_queue,
                            old(self).send_buffer@.space,
                        ).0,
                        ..m2
                    };
                    let data0 = old(self).receive_buffer@.data;
                    &&& channel_id == m0.next_channel_id
                    &&& request_id == m0.next_request_id
                    &&& final(self).conn@ == drain_events(fed_with(m3, data0))
                    &&& final(self).conn@.next_channel_id == m0.next_channel_id + 1
                    &&& final(self).conn@.next_request_id == m0.next_request_id + 1
                    &&& final(self).conn@.has_pending(request_id)
                    &&& final(self).conn@.state != ConnectionState::Error
                    &&& final(self).receive_buffer@ == old(self).receive_buffer@.consume(
                        parse_frames(data0).1,
                    )
                }),
                Err(e) => {
                    &&& (e == TransportError::ConnectionAborted || e == TransportError::IoFailed
                        || e == TransportError::ParseFailed)
                    &&& (e != TransportError::ConnectionAborted ==> final(self).conn@.state
                        == ConnectionState::Error)
                },
            }),
    {
        if self.conn.state == ConnectionState::Error {
            return Err(TransportError::ConnectionAborted);
        }
        let ghost m0 = self.conn@;
        let channel_id = self.conn.create_channel();
        match self.conn.channel_open(channel_id, Vec::new()) {
            Err(_) => {
                proof {
                    assert(false);
                }
                Err(TransportError::ConnectionAborted)
            },
            Ok(request_id) => {
                let ghost m2 = self.conn@;
                match self.send_frames() {
                    Err(e) => Err(e),
                    Ok(()) => {
                        let ghost m3 = self.conn@;
                        let ghost data0 = self.receive_buffer@.data;
                        match self.handle_frames() {
                            Err(e) => Err(e),
                            Ok(()) => {
                                proof {
                                    let fed = fed_with(m3, data0);
                                    assert(final(self).conn@ == drain_events(fed));
                                    lemma_drain_keeps_ids(fed);
                                    let p = m3.pending;
                                    assert(p[p.len() - 1].id == request_id);
                                    assert(m3.has_pending(request_id));
                                    assert(fed.pending == m3.pending);
                                }
                                Ok((channel_id, request_id))
                            },
                        }
                    },
                }
            },
        }
    }
}

/// One poll of the request correlator for `request_id`: parses the whole
/// frames already buffered on the receive side, drives the resulting events
/// into the protocol state (a second drain covers the case where handling one
/// frame unblocks handling of the next), and reports [`Answer::Ready`]
/// exactly when a terminal reply for the request stands recorded in the
/// drained state — [`Answer::NotReady`] exactly when it does not. Never
/// blocks; the embedding's try-acquired lock is what hands the poll its
/// exclusive borrow, and an unavailable lock is the embedding's own "not
/// ready". Fails with `ConnectionAborted`, touching nothing, exactly when the
/// connection is already in the terminal `Error` state; fails with
/// `ParseFailed` exactly when the buffered bytes end in a malformed prefix.
/// A finished request never becomes unfinished: completion reports are
/// stable.
pub fn wait_for_answer<S: ByteStream>(
    transport: &mut Transport<S>,
    request_id: RequestId,
) -> (r: Answer)
    requires
        old(transport).wf(),
    ensures
        final(transport).wf(),
        (r == Answer::Failed(TransportError::ConnectionAborted)) <==> old(
            transport,
        ).conn@.state == ConnectionState::Error,
        old(transport).conn@.state == ConnectionState::Error ==> *final(transport) == *old(
            transport,
        ),
        old(transport).conn@.finished(request_id) ==> final(transport).conn@.finished(request_id),
        old(transport).conn@.state != ConnectionState::Error ==> ({
            let data0 = old(transport).receive_buffer@.data;
            let rest = data0.skip(parse_frames(data0).1 as int);
            let drained = drain_events(fed_with(old(transport).conn@, data0));
            &&& final(transport).stream == old(transport).stream
            &&& final(transport).send_buffer == old(transport).send_buffer
            &&& final(transport).receive_buffer@ == old(transport).receive_buffer@.consume(
                parse_frames(data0).1,
            )
            &&& (spec_parse(rest) is Malformed ==> r == Answer::Failed(TransportError::ParseFailed)
                && final(transport).conn@ == (ConnModel {
                state: ConnectionState::Error,
                ..fed_with(old(transport).conn@, data0)
            }))
            &&& (!(spec_parse(rest) is Malformed) ==> {
                &&& final(transport).conn@ == drained
                &&& r == (if drained.finished(request_id) {
                    Answer::Ready
                } else {
                    Answer::NotReady
                })
            })
        }),
{
    if transport.conn.state == ConnectionState::Error {
        return Answer::Failed(TransportError::ConnectionAborted);
    }
    let ghost data0 = transport.receive_buffer@.data;
    match transport.handle_frames() {
        Err(e) => {
            return Answer::Failed(e);
        },
        Ok(()) => {},
    }
    let ghost drained = drain_events(fed_with(old(transport).conn@, data0));
    let ghost rb1 = transport.receive_buffer@;
    if transport.conn.is_finished(request_id) {
        return Answer::Ready;
    }
    match transport.handle_frames() {
        Err(e) => {
            proof {
                let rest = data0.skip(parse_frames(data0).1 as int);
                assert(rest.skip(0) =~= rest);
                assert(parse_frames(rest) == (Seq::<FrameModel>::empty(), 0nat));
                assert(false);
            }
            return Answer::Failed(e);
        },
        Ok(()) => {},
    }
    proof {
        let rest = data0.skip(parse_frames(data0).1 as int);
        assert(rest.skip(0) =~= rest);
        assert(parse_frames(rest) == (Seq::<FrameModel>::empty(), 0nat));
        assert(drained.inbound + parse_frames(rest).0 =~= drained.inbound);
        assert(fed_with(drained, rest) == drained);
        assert(transport.conn@ == drain_events(drained));
        assert(drain_events(drained) == drained);
        assert(transport.receive_buffer@.data =~= rb1.consume(0).data);
        assert(transport.receive_buffer@ == rb1.consume(0));
        assert(transport.receive_buffer@ == old(transport).receive_buffer@.consume(
            parse_frames(data0).1,
        ));
    }
    if transport.conn.is_finished(request_id) {
        Answer::Ready
    } else {
        Answer::NotReady
    }
}

} // verus!
