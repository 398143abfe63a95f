use lapin_core::connection::{ConnectionState, TransportError};
use lapin_core::frame::{Frame, Method};
use lapin_core::script::ScriptedStream;
use lapin_core::transport::{wait_for_answer, Answer, ConnectionOptions, Transport};

fn connected_transport() -> Transport<ScriptedStream> {
    let mut t = Transport::connect(ScriptedStream::new(), &ConnectionOptions::default());
    // complete the handshake: drain the open request, feed the open-reply
    t.send_frames().unwrap();
    let reply = Frame { channel_id: 0, method: Method::ConnectionOpenOk }.encode();
    t.receive_buffer.push_bytes(&reply);
    t.handle_frames().unwrap();
    assert_eq!(t.conn.state, ConnectionState::Connected);
    t
}

#[test]
fn default_options_are_guest_guest_60() {
    let o = ConnectionOptions::default();
    assert_eq!(o.username, "guest".to_string());
    assert_eq!(o.password, "guest".to_string());
    assert_eq!(o.heartbeat, 60);
}

#[test]
fn correlator_completes_only_after_its_reply() {
    let mut t = connected_transport();
    let (channel_id, request_id) = t.create_channel().unwrap();

    // never before the reply is processed
    assert_eq!(wait_for_answer(&mut t, request_id), Answer::NotReady);

    // an unrelated reply on a different channel leaves it not ready
    let unrelated = Frame { channel_id: channel_id + 1, method: Method::ChannelOpenOk }.encode();
    t.receive_buffer.push_bytes(&unrelated);
    assert_eq!(wait_for_answer(&mut t, request_id), Answer::NotReady);

    // the paired reply completes it
    let reply = Frame { channel_id, method: Method::ChannelOpenOk }.encode();
    t.receive_buffer.push_bytes(&reply);
    assert_eq!(wait_for_answer(&mut t, request_id), Answer::Ready);

    // completion is stable: a late poll still reports it, never un-finishes
    assert_eq!(wait_for_answer(&mut t, request_id), Answer::Ready);
}

#[test]
fn two_correlators_complete_independently() {
    let mut t = connected_transport();
    let (channel_a, request_a) = t.create_channel().unwrap();
    let (channel_b, request_b) = t.create_channel().unwrap();
    assert_ne!(request_a, request_b);

    assert_eq!(wait_for_answer(&mut t, request_a), Answer::NotReady);
    assert_eq!(wait_for_answer(&mut t, request_b), Answer::NotReady);

    // the reply for b arrives first; a stays pending
    let reply_b = Frame { channel_id: channel_b, method: Method::ChannelOpenOk }.encode();
    t.receive_buffer.push_bytes(&reply_b);
    assert_eq!(wait_for_answer(&mut t, request_b), Answer::Ready);
    assert_eq!(wait_for_answer(&mut t, request_a), Answer::NotReady);
    assert!(!t.conn.is_finished(request_a));
    assert!(t.conn.is_finished(request_b));

    // then a's reply arrives; both are finished, in any polling order
    let reply_a = Frame { channel_id: channel_a, method: Method::ChannelOpenOk }.encode();
    t.receive_buffer.push_bytes(&reply_a);
    assert_eq!(wait_for_answer(&mut t, request_a), Answer::Ready);
    assert_eq!(wait_for_answer(&mut t, request_b), Answer::Ready);
}

#[test]
fn poll_fails_once_state_is_error() {
    let mut t = connected_transport();
    let (_channel_id, request_id) = t.create_channel().unwrap();
    t.conn.state = ConnectionState::Error;
    assert_eq!(
        wait_for_answer(&mut t, request_id),
        Answer::Failed(TransportError::ConnectionAborted)
    );
    // and create_channel short-circuits the same way
    assert_eq!(t.create_channel(), Err(TransportError::ConnectionAborted));
}

#[test]
fn poll_fails_on_malformed_inbound_bytes() {
    let mut t = connected_transport();
    let (_channel_id, request_id) = t.create_channel().unwrap();
    t.receive_buffer.push_bytes(&vec![0xFF, 0, 0, 0, 0, 0]);
    assert_eq!(
        wait_for_answer(&mut t, request_id),
        Answer::Failed(TransportError::ParseFailed)
    );
    assert_eq!(t.conn.state, ConnectionState::Error);
}

#[test]
fn create_channel_allocates_fresh_ids() {
    let mut t = connected_transport();
    let (channel_a, request_a) = t.create_channel().unwrap();
    let (channel_b, request_b) = t.create_channel().unwrap();
    assert_eq!(channel_a, 1);
    assert_eq!(channel_b, 2);
    assert!(request_b > request_a);
    assert!(!t.conn.is_finished(request_a));
    assert!(!t.conn.is_finished(request_b));
    // an id never handed out is not finished either
    assert!(!t.conn.is_finished(request_b + 1));
}

#[test]
fn handle_frames_is_idempotent_when_nothing_is_new() {
    let mut t = connected_transport();
    let (_channel_id, request_id) = t.create_channel().unwrap();
    t.handle_frames().unwrap();
    let finished_before = t.conn.is_finished(request_id);
    let state_before = t.conn.state;
    t.handle_frames().unwrap();
    assert_eq!(t.conn.is_finished(request_id), finished_before);
    assert_eq!(t.conn.state, state_before);
    assert_eq!(t.conn.inbound.len(), 0);
}

#[test]
fn queued_frames_go_out_in_fifo_order() {
    let mut t = connected_transport();
    t.conn.channel_open(1, vec![b'a']).unwrap();
    t.conn.channel_open(2, vec![b'b']).unwrap();
    let first = Frame { channel_id: 1, method: Method::ChannelOpen { name: vec![b'a'] } }.encode();
    let second = Frame { channel_id: 2, method: Method::ChannelOpen { name: vec![b'b'] } }.encode();
    t.stream.push_write_accept(100);
    t.send_frames().unwrap();
    let mut expected = first;
    expected.extend(second);
    // the handshake bytes went out in connected_transport(); skip them
    let open = Frame { channel_id: 0, method: Method::ConnectionOpen { heartbeat: 60 } }.encode();
    assert_eq!(t.stream.written[open.len()..].to_vec(), expected);
}

#[test]
fn send_frames_fails_and_aborts_on_stream_failure() {
    let mut t = connected_transport();
    t.conn.channel_open(1, Vec::new()).unwrap();
    t.stream.push_write_failure();
    assert_eq!(t.send_frames(), Err(TransportError::IoFailed));
    assert_eq!(t.conn.state, ConnectionState::Error);
}
