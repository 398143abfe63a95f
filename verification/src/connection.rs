//! Connection and channel state machine.
//!
//! A [`Connection`] owns the channel table, the allocators for channel ids
//! and request ids, the pending-request table and the outbound-frame queue.
//! Request-expecting methods enqueue exactly one outbound frame and allocate
//! a fresh request id; the parse step feeds already-decoded frames into the
//! inbound event list, and [`Connection::handle_frames`] drives those events
//! into state updates (channel-table updates, pending-request completions).

use vstd::prelude::*;
use crate::frame::{Frame, FrameModel, Method, MethodModel, frame_wf};

verus! {

/// Correlation token for one outstanding asynchronous method call awaiting a
/// reply. Monotonically increasing, never reused.
pub type RequestId = u64;

/// Lifecycle state of a connection. `Closed` and `Error` are terminal.
#[derive(Clone, Copy, Debug, PartialEq, Eq, Structural)]
pub enum ConnectionState {
    Initial,
    Connecting,
    Connected,
    Closing,
    Closed,
    Error,
}

/// Error kinds of the transport core.
#[derive(Clone, Copy, Debug, PartialEq, Eq, Structural)]
pub enum TransportError {
    /// Transient: a non-blocking attempt could not transfer bytes right now.
    WouldBlock,
    /// The connection is in the terminal `Error` state; nothing was attempted.
    ConnectionAborted,
    /// Sequencing fault: a read was attempted while `Initial` or `Error`.
    InvalidState,
    /// The stream failed with a non-transient error.
    IoFailed,
    /// The inbound bytes cannot be any frame's encoding.
    ParseFailed,
}

/// One logical channel multiplexed over the connection.
#[derive(Clone, Copy, Debug)]
pub struct ChannelEntry {
    pub id: u16,
    /// Whether the channel's open-reply has been observed.
    pub open: bool,
    /// The request awaiting this channel's open-reply, while one is outstanding.
    pub awaiting: Option<RequestId>,
}

/// One outstanding request and whether its terminal reply has been recorded.
#[derive(Clone, Copy, Debug)]
pub struct PendingRequest {
    pub id: RequestId,
    pub done: bool,
}

/// Mathematical model of a [`Connection`].
pub struct ConnModel {
    pub state: ConnectionState,
    pub next_channel_id: u16,
    pub next_request_id: RequestId,
    pub frame_queue: Seq<FrameModel>,
    pub inbound: Seq<FrameModel>,
    pub channels: Seq<ChannelEntry>,
    pub pending: Seq<PendingRequest>,
}

impl ConnModel {
    /// Ids are single-use and below their allocator; every awaited request is
    /// in the pending table; every queued frame is encodable.
    pub open spec fn wf(self) -> bool {
        &&& 1 <= self.next_channel_id
        &&& forall|i: int, j: int|
            0 <= i < j < self.pending.len() ==> self.pending[i].id != self.pending[j].id
        &&& forall|i: int|
            0 <= i < self.pending.len() ==> self.pending[i].id < self.next_request_id
        &&& forall|i: int, j: int|
            0 <= i < j < self.channels.len() ==> self.channels[i].id != self.channels[j].id
        &&& forall|i: int|
            0 <= i < self.channels.len() ==> 1 <= #[trigger] self.channels[i].id
                < self.next_channel_id
        &&& forall|i: int|
            0 <= i < self.channels.len() ==> match #[trigger] self.channels[i].awaiting {
                Some(r) => self.has_pending(r),
                None => true,
            }
        &&& forall|i: int| 0 <= i < self.frame_queue.len() ==> frame_wf(self.frame_queue[i])
    }

    /// Some entry of the pending-request table carries this id.
    pub open spec fn has_pending(self, id: RequestId) -> bool {
        exists|i: int| 0 <= i < self.pending.len() && self.pending[i].id == id
    }

    /// A terminal reply for this id has been recorded.
    pub open spec fn finished(self, id: RequestId) -> bool {
        exists|i: int|
            0 <= i < self.pending.len() && self.pending[i].id == id && self.pending[i].done
    }

    /// Channel `c` awaits the completion of request `r`.
    pub open spec fn awaits(self, c: u16, r: RequestId) -> bool {
        exists|i: int|
            0 <= i < self.channels.len() && self.channels[i].id == c && self.channels[i].awaiting
                == Some(r)
    }
}

/// A channel entry after an open-reply on channel `c` has been handled.
pub open spec fn channel_after_reply(e: ChannelEntry, c: u16) -> ChannelEntry {
    if e.id == c {
        ChannelEntry { id: e.id, open: true, awaiting: None }
    } else {
        e
    }
}

/// A pending request after an open-reply on channel `c` has been handled: the
/// request awaited by `c` is recorded as finished, every other is untouched.
pub open spec fn pending_after_reply(m: ConnModel, c: u16, p: PendingRequest) -> PendingRequest {
    if m.awaits(c, p.id) {
        PendingRequest { id: p.id, done: true }
    } else {
        p
    }
}

/// Effect of one already-parsed frame on the protocol state. Methods that
/// only a server handles are ignored by this client-side state machine.
pub open spec fn step_event(m: ConnModel, f: FrameModel) -> ConnModel {
    match f.method {
        MethodModel::ConnectionOpenOk => {
            if m.state == ConnectionState::Connecting {
                ConnModel { state: ConnectionState::Connected, ..m }
            } else {
                m
            }
        },
        MethodModel::ChannelOpenOk => ConnModel {
            channels: Seq::new(m.channels.len(), |i: int| channel_after_reply(m.channels[i], f.channel_id)),
            pending: Seq::new(m.pending.len(), |i: int| pending_after_reply(m, f.channel_id, m.pending[i])),
            ..m
        },
        MethodModel::ConnectionOpen { .. } => m,
        MethodModel::ChannelOpen { .. } => m,
    }
}

/// Effect of handling the oldest parsed-but-unhandled event.
pub open spec fn apply_first(m: ConnModel) -> ConnModel
    recommends
        m.inbound.len() > 0,
{
    ConnModel { inbound: m.inbound.skip(1), ..step_event(m, m.inbound[0]) }
}

/// Effect of handling all parsed-but-unhandled events, oldest first.
pub open spec fn drain_events(m: ConnModel) -> ConnModel
    decreases m.inbound.len(),
{
    if m.inbound.len() == 0 {
        m
    } else {
        drain_events(apply_first(m))
    }
}

/// Well-formedness carries over to any state that agrees on the id
/// allocators and the two tables, once its own outbound queue is known to
/// hold only encodable frames.
pub proof fn lemma_wf_new_queue(m1: ConnModel, m2: ConnModel)
    requires
        m1.wf(),
        m2.pending == m1.pending,
        m2.channels == m1.channels,
        m2.next_request_id == m1.next_request_id,
        m2.next_channel_id == m1.next_channel_id,
        forall|i: int| 0 <= i < m2.frame_queue.len() ==> frame_wf(#[trigger] m2.frame_queue[i]),
    ensures
        m2.wf(),
{
    assert forall|i: int|
        0 <= i < m2.channels.len() implies match #[trigger] m2.channels[i].awaiting {
        Some(r) => m2.has_pending(r),
        None => true,
    } by {
        match m2.channels[i].awaiting {
            Some(r) => {
                assert(m1.channels[i].awaiting == Some(r));
                let k = choose|k: int| 0 <= k < m1.pending.len() && m1.pending[k].id == r;
                assert(m2.pending[k].id == r);
            },
            None => {},
        }
    }
}

/// Well-formedness depends only on the id allocators, the two tables and the
/// outbound queue: it carries over to any state that agrees on those.
pub proof fn lemma_wf_same_tables(m1: ConnModel, m2: ConnModel)
    requires
        m1.wf(),
        m2.pending == m1.pending,
        m2.channels == m1.channels,
        m2.frame_queue == m1.frame_queue,
        m2.next_request_id == m1.next_request_id,
        m2.next_channel_id == m1.next_channel_id,
    ensures
        m2.wf(),
{
    assert forall|i: int|
        0 <= i < m2.frame_queue.len() implies frame_wf(#[trigger] m2.frame_queue[i]) by {
        assert(m2.frame_queue[i] == m1.frame_queue[i]);
    }
    lemma_wf_new_queue(m1, m2);
}

/// One event preserves well-formedness of the protocol state.
pub proof fn lemma_step_preserves_wf(m: ConnModel, f: FrameModel)
    requires
        m.wf(),
    ensures
        step_event(m, f).wf(),
{
    let m1 = step_event(m, f);
    assert forall|i: int| 0 <= i < m1.channels.len() implies match #[trigger] m1.channels[i].awaiting {
        Some(r) => m1.has_pending(r),
        None => true,
    } by {
        match m1.channels[i].awaiting {
            Some(r) => {
                assert(m.channels[i].awaiting == Some(r));
                let k = choose|k: int|
                    0 <= k < m.pending.len() && m.pending[k].id == r;
                assert(m1.pending[k].id == r);
            },
            None => {},
        }
    }
}

/// Completion is monotone: no event un-finishes a recorded reply.
pub proof fn lemma_step_finished_monotone(m: ConnModel, f: FrameModel, id: RequestId)
    requires
        m.finished(id),
    ensures
        step_event(m, f).finished(id),
{
    let k = choose|k: int|
        0 <= k < m.pending.len() && m.pending[k].id == id && m.pending[k].done;
    assert(step_event(m, f).pending[k].id == id && step_event(m, f).pending[k].done);
}

/// Completion is monotone across a whole drain of the inbound list.
pub proof fn lemma_drain_finished_monotone(m: ConnModel, id: RequestId)
    requires
        m.finished(id),
    ensures
        drain_events(m).finished(id),
    decreases m.inbound.len(),
{
    if m.inbound.len() == 0 {
    } else {
        lemma_step_finished_monotone(m, m.inbound[0], id);
        assert(apply_first(m).pending == step_event(m, m.inbound[0]).pending);
        lemma_drain_finished_monotone(apply_first(m), id);
    }
}

/// Independence: an event leaves every request it does not address exactly as
/// it was. A channel-open reply addresses only the request its channel
/// awaits; every other event addresses no request at all.
pub proof fn lemma_step_finished_independent(m: ConnModel, f: FrameModel, id: RequestId)
    requires
        f.method == MethodModel::ChannelOpenOk ==> !m.awaits(f.channel_id, id),
    ensures
        step_event(m, f).finished(id) == m.finished(id),
{
    let m1 = step_event(m, f);
    if m1.finished(id) {
        let k = choose|k: int|
            0 <= k < m1.pending.len() && m1.pending[k].id == id && m1.pending[k].done;
        assert(m.pending[k].id == id && m.pending[k].done);
    }
    if m.finished(id) {
        let k = choose|k: int|
            0 <= k < m.pending.len() && m.pending[k].id == id && m.pending[k].done;
        assert(m1.pending[k].id == id && m1.pending[k].done);
    }
}

/// Completion: a channel-open reply finishes the request its channel awaits.
pub proof fn lemma_step_completes_awaited(m: ConnModel, f: FrameModel, id: RequestId)
    requires
        m.wf(),
        f.method == MethodModel::ChannelOpenOk,
        m.awaits(f.channel_id, id),
    ensures
        step_event(m, f).finished(id),
{
    let i = choose|i: int|
        0 <= i < m.channels.len() && m.channels[i].id == f.channel_id && m.channels[i].awaiting
            == Some(id);
    assert(m.has_pending(id));
    let k = choose|k: int| 0 <= k < m.pending.len() && m.pending[k].id == id;
    assert(step_event(m, f).pending[k].id == id && step_event(m, f).pending[k].done);
}

/// Independence across a whole drain: a request whose channel none of the
/// buffered channel-open replies addresses is observed exactly as it was —
/// handling one correlator's replies never completes, nor uncompletes,
/// another's request.
pub proof fn lemma_drain_finished_independent(m: ConnModel, id: RequestId)
    requires
        forall|i: int|
            0 <= i < m.inbound.len() ==> ((#[trigger] m.inbound[i]).method
                == MethodModel::ChannelOpenOk ==> !m.awaits(m.inbound[i].channel_id, id)),
    ensures
        drain_events(m).finished(id) == m.finished(id),
    decreases m.inbound.len(),
{
    if m.inbound.len() == 0 {
    } else {
        let f = m.inbound[0];
        lemma_step_finished_independent(m, f, id);
        let m1 = apply_first(m);
        assert(m1.pending == step_event(m, f).pending);
        assert(m1.finished(id) == m.finished(id));
        assert forall|i: int|
            0 <= i < m1.inbound.len() implies ((#[trigger] m1.inbound[i]).method
                == MethodModel::ChannelOpenOk ==> !m1.awaits(m1.inbound[i].channel_id, id)) by {
            assert(m1.inbound[i] == m.inbound[i + 1]);
            if m1.inbound[i].method == MethodModel::ChannelOpenOk {
                let c = m1.inbound[i].channel_id;
                if m1.awaits(c, id) {
                    let j = choose|j: int|
                        0 <= j < m1.channels.len() && m1.channels[j].id == c
                            && m1.channels[j].awaiting == Some(id);
                    assert(m.channels[j].id == c && m.channels[j].awaiting == Some(id));
                    assert(m.awaits(c, id));
                    assert(false);
                }
            }
        }
        lemma_drain_finished_independent(m1, id);
    }
}

/// Completion across a whole drain: once the open-reply for the channel that
/// awaits a request is among the buffered events, draining them records that
/// request finished.
pub proof fn lemma_drain_completes_awaited(m: ConnModel, c: u16, id: RequestId)
    requires
        m.wf(),
        m.awaits(c, id),
        exists|i: int|
            0 <= i < m.inbound.len() && (#[trigger] m.inbound[i]).method
                == MethodModel::ChannelOpenOk && m.inbound[i].channel_id == c,
    ensures
        drain_events(m).finished(id),
    decreases m.inbound.len(),
{
    let f = m.inbound[0];
    let m1 = apply_first(m);
    lemma_step_preserves_wf(m, f);
    assert(m1.pending == step_event(m, f).pending);
    assert(m1.channels == step_event(m, f).channels);
    assert(m1.frame_queue == step_event(m, f).frame_queue);
    assert(m1.wf());
    if f.method == MethodModel::ChannelOpenOk && f.channel_id == c {
        lemma_step_completes_awaited(m, f, id);
        assert(m1.finished(id));
        lemma_drain_finished_monotone(m1, id);
    } else {
        let j = choose|j: int|
            0 <= j < m.channels.len() && m.channels[j].id == c && m.channels[j].awaiting == Some(
                id,
            );
        match f.method {
            MethodModel::ChannelOpenOk => {
                assert(f.channel_id != c);
                assert(m1.channels[j] == channel_after_reply(m.channels[j], f.channel_id));
                assert(m1.channels[j].id == c && m1.channels[j].awaiting == Some(id));
            },
            _ => {
                assert(m1.channels[j].id == c && m1.channels[j].awaiting == Some(id));
            },
        }
        assert(m1.awaits(c, id));
        let i0 = choose|i: int|
            0 <= i < m.inbound.len() && (#[trigger] m.inbound[i]).method
                == MethodModel::ChannelOpenOk && m.inbound[i].channel_id == c;
        assert(i0 != 0);
        assert(m1.inbound[i0 - 1] == m.inbound[i0]);
        lemma_drain_completes_awaited(m1, c, id);
    }
}

/// The connection driver's and correlator's shared protocol state.
pub struct Connection {
    pub state: ConnectionState,
    pub next_channel_id: u16,
    pub next_request_id: RequestId,
    pub frame_queue: Vec<Frame>,
    pub inbound: Vec<Frame>,
    pub channels: Vec<ChannelEntry>,
    pub pending: Vec<PendingRequest>,
}

impl View for Connection {
    type V = ConnModel;

    open spec fn view(&self) -> ConnModel {
        ConnModel {
            state: self.state,
            next_channel_id: self.next_channel_id,
            next_request_id: self.next_request_id,
            frame_queue: Seq::new(self.frame_queue@.len(), |i: int| self.frame_queue@[i]@),
            inbound: Seq::new(self.inbound@.len(), |i: int| self.inbound@[i]@),
            channels: self.channels@,
            pending: self.pending@,
        }
    }
}

impl Connection {
    /// A fresh connection: `Initial`, nothing queued, nothing pending.
    pub fn new() -> (r: Connection)
        ensures
            r@.wf(),
            r@.state == ConnectionState::Initial,
            r@.next_channel_id == 1,
            r@.next_request_id == 1,
            r@.frame_queue == Seq::<FrameModel>::empty(),
            r@.inbound == Seq::<FrameModel>::empty(),
            r@.channels == Seq::<ChannelEntry>::empty(),
            r@.pending == Seq::<PendingRequest>::empty(),
    {
        let r = Connection {
            state: ConnectionState::Initial,
            next_channel_id: 1,
            next_request_id: 1,
            frame_queue: Vec::new(),
            inbound: Vec::new(),
            channels: Vec::new(),
            pending: Vec::new(),
        };
        proof {
            assert(r@.frame_queue =~= Seq::<FrameModel>::empty());
            assert(r@.inbound =~= Seq::<FrameModel>::empty());
        }
        r
    }

    /// Starts the connection handshake: enqueues the connection-level open
    /// request, carrying the heartbeat interval, and moves to `Connecting`.
    /// Anywhere but `Initial` this is a sequencing fault and changes nothing.
    pub fn connect(&mut self, heartbeat: u16) -> (r: Result<(), TransportError>)
        requires
            old(self)@.wf(),
        ensures
            final(self)@.wf(),
            old(self)@.state == ConnectionState::Initial ==> {
                &&& r == Ok::<(), TransportError>(())
                &&& final(self)@ == (ConnModel {
                    state: ConnectionState::Connecting,
                    frame_queue: old(self)@.frame_queue.push(
                        FrameModel {
                            channel_id: 0,
                            method: MethodModel::ConnectionOpen { heartbeat },
                        },
                    ),
                    ..old(self)@
                })
            },
            old(self)@.state != ConnectionState::Initial ==> {
                &&& r == Err::<(), TransportError>(TransportError::InvalidState)
                &&& final(self)@ == old(self)@
            },
    {
        if self.state == ConnectionState::Initial {
            self.state = ConnectionState::Connecting;
            self.frame_queue.push(Frame {
                channel_id: 0,
                method: Method::ConnectionOpen { heartbeat },
            });
            proof {
                assert(self@.frame_queue =~= old(self)@.frame_queue.push(
                    FrameModel { channel_id: 0, method: MethodModel::ConnectionOpen { heartbeat } },
                ));
                assert(self@.inbound =~= old(self)@.inbound);
                assert forall|i: int|
                    0 <= i < self@.frame_queue.len() implies frame_wf(
                    #[trigger] self@.frame_queue[i],
                ) by {
                    if i < old(self)@.frame_queue.len() {
                        assert(self@.frame_queue[i] == old(self)@.frame_queue[i]);
                    }
                }
                assert forall|i: int|
                    0 <= i < self@.channels.len() implies match #[trigger] self@.channels[i].awaiting {
                    Some(r) => self@.has_pending(r),
                    None => true,
                } by {
                    match self@.channels[i].awaiting {
                        Some(r) => {
                            let k = choose|k: int|
                                0 <= k < old(self)@.pending.len() && old(self)@.pending[k].id == r;
                            assert(self@.pending[k].id == r);
                        },
                        None => {},
                    }
                }
                assert(self@.wf());
            }
            Ok(())
        } else {
            proof {
                assert(self@.frame_queue =~= old(self)@.frame_queue);
                assert(self@.inbound =~= old(self)@.inbound);
            }
            Err(TransportError::InvalidState)
        }
    }

    /// Allocates the next unused channel id. No I/O side effect by itself.
    pub fn create_channel(&mut self) -> (r: u16)
        requires
            old(self)@.wf(),
            old(self)@.next_channel_id < u16::MAX,
        ensures
            final(self)@.wf(),
            r == old(self)@.next_channel_id,
            final(self)@ == (ConnModel {
                next_channel_id: (old(self)@.next_channel_id + 1) as u16,
                channels: old(self)@.channels.push(
                    ChannelEntry { id: r, open: false, awaiting: None },
                ),
                ..old(self)@
            }),
    {
        let id = self.next_channel_id;
        self.next_channel_id = self.next_channel_id + 1;
        self.channels.push(ChannelEntry { id, open: false, awaiting: None });
        proof {
            assert(self@.frame_queue =~= old(self)@.frame_queue);
            assert(self@.inbound =~= old(self)@.inbound);
            assert forall|i: int|
                0 <= i < self@.channels.len() implies match #[trigger] self@.channels[i].awaiting {
                Some(r) => self@.has_pending(r),
                None => true,
            } by {
                if i < old(self)@.channels.len() {
                    match self@.channels[i].awaiting {
                        Some(r) => {
                            let k = choose|k: int|
                                0 <= k < old(self)@.pending.len() && old(self)@.pending[k].id == r;
                            assert(self@.pending[k].id == r);
                        },
                        None => {},
                    }
                }
            }
            assert(self@.wf());
        }
        id
    }

    /// Synthesizes the open-channel request for `channel_id`, enqueues it on
    /// the outbound-frame queue, and allocates and returns a fresh request
    /// id, not yet finished. Never blocks. Once the connection is in the
    /// terminal `Error` state the call short-circuits and changes nothing.
    pub fn channel_open(&mut self, channel_id: u16, name: Vec<u8>) -> (r: Result<
        RequestId,
        TransportError,
    >)
        requires
            old(self)@.wf(),
            old(self)@.next_request_id < u64::MAX,
            name@.len() <= u16::MAX,
        ensures
            final(self)@.wf(),
            old(self)@.state == ConnectionState::Error ==> {
                &&& r == Err::<RequestId, TransportError>(TransportError::ConnectionAborted)
                &&& final(self)@ == old(self)@
            },
            old(self)@.state != ConnectionState::Error ==> {
                &&& r == Ok::<RequestId, TransportError>(old(self)@.next_request_id)
                &&& final(self)@ == (ConnModel {
                    next_request_id: (old(self)@.next_request_id + 1) as u64,
                    frame_queue: old(self)@.frame_queue.push(
                        FrameModel {
                            channel_id,
                            method: MethodModel::ChannelOpen { name: name@ },
                        },
                    ),
                    channels: Seq::new(
                        old(self)@.channels.len(),
                        |i: int| channel_awaiting_update(
                            old(self)@.channels[i],
                            channel_id,
                            old(self)@.next_request_id,
                        ),
                    ),
                    pending: old(self)@.pending.push(
                        PendingRequest { id: old(self)@.next_request_id, done: false },
                    ),
                    ..old(self)@
                })
                &&& !final(self)@.finished(old(self)@.next_request_id)
            },
    {
        if self.state == ConnectionState::Error {
            proof {
                assert(self@.frame_queue =~= old(self)@.frame_queue);
                assert(self@.inbound =~= old(self)@.inbound);
            }
            return Err(TransportError::ConnectionAborted);
        }
        let rid = self.next_request_id;
        self.next_request_id = self.next_request_id + 1;
        let mut i: usize = 0;
        while i < self.channels.len()
            invariant
                i <= self.channels@.len(),
                rid == old(self).next_request_id,
                self.state == old(self).state,
                self.next_channel_id == old(self).next_channel_id,
                self.next_request_id == rid + 1,
                self.frame_queue@ == old(self).frame_queue@,
                self.inbound@ == old(self).inbound@,
                self.pending@ == old(self).pending@,
                self.channels@.len() == old(self).channels@.len(),
                forall|j: int|
                    i <= j < self.channels@.len() ==> self.channels@[j]
                        == old(self).channels@[j],
                forall|j: int|
                    0 <= j < i ==> self.channels@[j] == channel_awaiting_update(
                        old(self).channels@[j],
                        channel_id,
                        rid,
                    ),
            decreases self.channels@.len() - i,
        {
            if self.channels[i].id == channel_id {
                let e = self.channels[i];
                self.channels[i] = ChannelEntry { id: e.id, open: e.open, awaiting: Some(rid) };
            }
            i = i + 1;
        }
        let ghost nm = name@;
        self.pending.push(PendingRequest { id: rid, done: false });
        self.frame_queue.push(Frame { channel_id, method: Method::ChannelOpen { name } });
        proof {
            assert(self@.frame_queue =~= old(self)@.frame_queue.push(
                FrameModel { channel_id, method: MethodModel::ChannelOpen { name: nm } },
            ));
            assert(self@.inbound =~= old(self)@.inbound);
            assert(self@.channels =~= Seq::new(
                old(self)@.channels.len(),
                |i: int| channel_awaiting_update(old(self)@.channels[i], channel_id, rid),
            ));
            let mfin = self@;
            let mold = old(self)@;
            assert forall|i: int|
                0 <= i < mfin.frame_queue.len() implies frame_wf(
                #[trigger] mfin.frame_queue[i],
            ) by {
                if i < mold.frame_queue.len() {
                    assert(mfin.frame_queue[i] == mold.frame_queue[i]);
                }
            }
            assert forall|i: int|
                0 <= i < mfin.channels.len() implies match #[trigger] mfin.channels[i].awaiting {
                Some(r) => mfin.has_pending(r),
                None => true,
            } by {
                match mfin.channels[i].awaiting {
                    Some(r) => {
                        if r == rid {
                            assert(mfin.pending[mfin.pending.len() - 1].id == rid);
                        } else {
                            assert(mold.channels[i].awaiting == Some(r));
                            let k = choose|k: int|
                                0 <= k < mold.pending.len() && mold.pending[k].id == r;
                            assert(mfin.pending[k].id == r);
                        }
                    },
                    None => {},
                }
            }
            assert(mfin.wf());
            if mfin.finished(rid) {
                let k = choose|k: int|
                    0 <= k < mfin.pending.len() && mfin.pending[k].id == rid && mfin.pending[k].done;
                assert(false);
            }
        }
        Ok(rid)
    }

    /// True once a terminal reply for `request_id` has been recorded by the
    /// parse step; false for an unknown or still-outstanding request.
    pub fn is_finished(&self, request_id: RequestId) -> (r: bool)
        requires
            self@.wf(),
        ensures
            r == self@.finished(request_id),
    {
        let mut i: usize = 0;
        while i < self.pending.len()
            invariant
                self@.wf(),
                i <= self.pending@.len(),
                forall|j: int| 0 <= j < i ==> self.pending@[j].id != request_id,
            decreases self.pending@.len() - i,
        {
            if self.pending[i].id == request_id {
                proof {
                    if self@.finished(request_id) {
                        let k = choose|k: int|
                            0 <= k < self@.pending.len() && self@.pending[k].id == request_id
                                && self@.pending[k].done;
                        assert(k == i);
                    }
                    if self@.pending[i as int].done {
                        assert(self@.finished(request_id));
                    }
                }
                return self.pending[i].done;
            }
            i = i + 1;
        }
        false
    }
}

impl Connection {
    /// Removes the oldest parsed-but-unhandled event and applies it.
    fn apply_one(&mut self)
        requires
            old(self)@.wf(),
            old(self)@.inbound.len() > 0,
        ensures
            final(self)@.wf(),
            final(self)@ == apply_first(old(self)@),
    {
        let ghost mold = old(self)@;
        let ghost fm = old(self)@.inbound[0];
        let f = self.inbound.remove(0);
        proof {
            assert(f@ == fm);
            assert(self@.inbound =~= mold.inbound.skip(1));
            assert(self@.frame_queue =~= mold.frame_queue);
            lemma_step_preserves_wf(mold, fm);
        }
        match f.method {
            Method::ConnectionOpenOk => {
                if self.state == ConnectionState::Connecting {
                    self.state = ConnectionState::Connected;
                }
                proof {
                    assert(self@.frame_queue =~= mold.frame_queue);
                    assert(self@.inbound =~= mold.inbound.skip(1));
                    assert(final(self)@ == apply_first(mold));
                }
            },
            Method::ChannelOpenOk => {
                let c = f.channel_id;
                let mut awaited: Option<RequestId> = None;
                let mut i: usize = 0;
                while i < self.channels.len()
                    invariant
                        mold.wf(),
                        i <= self.channels@.len(),
                        self.channels@ == mold.channels,
                        (forall|j: int| 0 <= j < i ==> self.channels@[j].id != c) ==> awaited
                            is None,
                        forall|j: int|
                            0 <= j < i && (#[trigger] self.channels@[j]).id == c ==> awaited
                                == self.channels@[j].awaiting,
                    decreases self.channels@.len() - i,
                {
                    if self.channels[i].id == c {
                        awaited = self.channels[i].awaiting;
                        proof {
                            assert forall|j: int|
                                0 <= j < i + 1 && (#[trigger] self.channels@[j]).id == c
                                    implies awaited == self.channels@[j].awaiting by {
                                if j < i {
                                    assert(self.channels@[j].id != self.channels@[i as int].id);
                                }
                            }
                        }
                    }
                    i = i + 1;
                }
                proof {
                    match awaited {
                        Some(r) => {
                            assert(!(forall|j: int|
                                0 <= j < mold.channels.len() ==> mold.channels[j].id != c));
                            assert(mold.awaits(c, r));
                        },
                        None => {
                            assert forall|r: RequestId| !mold.awaits(c, r) by {
                                if mold.awaits(c, r) {
                                    let j = choose|j: int|
                                        0 <= j < mold.channels.len() && mold.channels[j].id == c
                                            && mold.channels[j].awaiting == Some(r);
                                    assert(awaited == Some(r));
                                }
                            }
                        },
                    }
                }
                i = 0;
                while i < self.channels.len()
                    invariant
                        mold.wf(),
                        i <= self.channels@.len(),
                        self.channels@.len() == mold.channels.len(),
                        forall|j: int|
                            i <= j < self.channels@.len() ==> self.channels@[j]
                                == mold.channels[j],
                        forall|j: int|
                            0 <= j < i ==> self.channels@[j] == channel_after_reply(
                                mold.channels[j],
                                c,
                            ),
                        self.pending@ == mold.pending,
                        self.state == mold.state,
                        self.next_channel_id == mold.next_channel_id,
                        self.next_request_id == mold.next_request_id,
                        self@.frame_queue == mold.frame_queue,
                        self@.inbound == mold.inbound.skip(1),
                    decreases self.channels@.len() - i,
                {
                    if self.channels[i].id == c {
                        let e = self.channels[i];
                        self.channels[i] = ChannelEntry { id: e.id, open: true, awaiting: None };
                    }
                    i = i + 1;
                }
                i = 0;
                while i < self.pending.len()
                    invariant
                        i <= self.pending@.len(),
                        self.pending@.len() == mold.pending.len(),
                        forall|j: int|
                            i <= j < self.pending@.len() ==> self.pending@[j] == mold.pending[j],
                        forall|j: int|
                            0 <= j < i ==> self.pending@[j] == pending_after_reply(
                                mold,
                                c,
                                mold.pending[j],
                            ),
                        awaited matches Some(r) ==> mold.awaits(c, r),
                        awaited is None ==> forall|r: RequestId| !mold.awaits(c, r),
                        forall|j1: int, j2: int|
                            0 <= j1 < j2 < mold.channels.len() ==> mold.channels[j1].id
                                != mold.channels[j2].id,
                        self.channels@.len() == mold.channels.len(),
                        forall|j: int|
                            0 <= j < self.channels@.len() ==> self.channels@[j]
                                == channel_after_reply(mold.channels[j], c),
                        self.state == mold.state,
                        self.next_channel_id == mold.next_channel_id,
                        self.next_request_id == mold.next_request_id,
                        self@.frame_queue == mold.frame_queue,
                        self@.inbound == mold.inbound.skip(1),
                    decreases self.pending@.len() - i,
                {
                    let hit = match awaited {
                        Some(r) => self.pending[i].id == r,
                        None => false,
                    };
                    if hit {
                        let p = self.pending[i];
                        self.pending[i] = PendingRequest { id: p.id, done: true };
                    }
                    proof {
                        let pj = mold.pending[i as int];
                        match awaited {
                            Some(r) => {
                                if pj.id == r {
                                    assert(mold.awaits(c, pj.id));
                                } else {
                                    if mold.awaits(c, pj.id) {
                                        let j1 = choose|j: int|
                                            0 <= j < mold.channels.len() && mold.channels[j].id
                                                == c && mold.channels[j].awaiting == Some(pj.id);
                                        let j2 = choose|j: int|
                                            0 <= j < mold.channels.len() && mold.channels[j].id
                                                == c && mold.channels[j].awaiting == Some(r);
                                        assert(j1 == j2);
                                        assert(false);
                                    }
                                }
                            },
                            None => {},
                        }
                        assert(self.pending@[i as int] == pending_after_reply(mold, c, pj));
                    }
                    i = i + 1;
                }
                proof {
                    assert(self@.channels =~= step_event(mold, fm).channels);
                    assert(self@.pending =~= step_event(mold, fm).pending);
                    assert(self@.frame_queue =~= mold.frame_queue);
                    assert(self@.inbound =~= mold.inbound.skip(1));
                    assert(final(self)@ == apply_first(mold));
                }
            },
            Method::ConnectionOpen { .. } => {
                proof {
                    assert(self@.frame_queue =~= mold.frame_queue);
                    assert(final(self)@ == apply_first(mold));
                }
            },
            Method::ChannelOpen { .. } => {
                proof {
                    assert(self@.frame_queue =~= mold.frame_queue);
                    assert(final(self)@ == apply_first(mold));
                }
            },
        }
        proof {
            assert(apply_first(mold).channels == step_event(mold, fm).channels);
            assert(apply_first(mold).pending == step_event(mold, fm).pending);
            assert(apply_first(mold).frame_queue == step_event(mold, fm).frame_queue);
            assert(final(self)@.wf());
        }
    }

    /// Drives every already-parsed protocol event into state updates: channel
    /// table updates and pending-request completions, oldest event first.
    /// Idempotent: with nothing new to process it is a no-op. Once the
    /// connection is in the terminal `Error` state it changes nothing.
    pub fn handle_frames(&mut self)
        requires
            old(self)@.wf(),
        ensures
            final(self)@.wf(),
            old(self)@.state == ConnectionState::Error ==> final(self)@ == old(self)@,
            old(self)@.state != ConnectionState::Error ==> final(self)@ == drain_events(
                old(self)@,
            ),
    {
        if self.state == ConnectionState::Error {
            return;
        }
        while self.inbound.len() > 0
            invariant
                self@.wf(),
                drain_events(self@) == drain_events(old(self)@),
            decreases self@.inbound.len(),
        {
            self.apply_one();
        }
    }
}

/// A channel entry after an open request for channel `c` was issued under
/// request id `r`: that channel now awaits `r`; every other is untouched.
pub open spec fn channel_awaiting_update(e: ChannelEntry, c: u16, r: RequestId) -> ChannelEntry {
    if e.id == c {
        ChannelEntry { id: e.id, open: e.open, awaiting: Some(r) }
    } else {
        e
    }
}

} // verus!
