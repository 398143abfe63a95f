use lapin_core::buffer::Buffer;
use lapin_core::connection::{Connection, ConnectionState, TransportError};
use lapin_core::frame::{Frame, Method};
use lapin_core::script::ScriptedStream;

fn connected_connection() -> Connection {
    let mut conn = Connection::new();
    conn.connect(60).unwrap();
    conn.state = ConnectionState::Connected;
    conn.frame_queue.clear();
    conn
}

#[test]
fn run_returns_without_looping_when_everything_blocks() {
    // would-block on both sides and nothing parsable: run makes at most one
    // attempt per side and returns the current state
    let mut conn = connected_connection();
    conn.channel_open(1, vec![0, 0, 0, 0]).unwrap();
    let mut stream = ScriptedStream::new();
    stream.push_write_would_block();
    stream.push_read_would_block();
    let mut send = Buffer::new(64);
    let mut recv = Buffer::new(64);
    let r = conn.run(&mut stream, &mut send, &mut recv);
    assert_eq!(r, Ok(ConnectionState::Connected));
    assert_eq!(stream.write_calls, 1);
    assert_eq!(stream.read_calls, 1);
}

#[test]
fn partial_writes_send_every_byte_exactly_once() {
    // three write outcomes [4, would-block, 6] against one 10-byte queued
    // frame: exactly those 10 bytes reach the stream, in order, none twice
    let mut conn = connected_connection();
    let name = vec![b'a', b'b', b'c', b'd'];
    conn.channel_open(1, name.clone()).unwrap();
    let expected = Frame { channel_id: 1, method: Method::ChannelOpen { name } }.encode();
    assert_eq!(expected.len(), 10);

    let mut stream = ScriptedStream::new();
    stream.push_write_accept(4);
    stream.push_write_would_block();
    stream.push_write_accept(6);
    stream.push_read_would_block();
    stream.push_read_would_block();

    let mut send = Buffer::new(64);
    let mut recv = Buffer::new(64);
    // first invocation: 4 bytes leave, then would-block suppresses writing
    let r1 = conn.run(&mut stream, &mut send, &mut recv);
    assert_eq!(r1, Ok(ConnectionState::Connected));
    assert_eq!(stream.written, expected[..4].to_vec());
    assert_eq!(send.available_data(), 6);
    // second invocation: the remaining 6 bytes leave
    let r2 = conn.run(&mut stream, &mut send, &mut recv);
    assert_eq!(r2, Ok(ConnectionState::Connected));
    assert_eq!(stream.written, expected);
    assert_eq!(send.available_data(), 0);
}

#[test]
fn run_short_circuits_in_error_state_without_io() {
    let mut conn = connected_connection();
    conn.state = ConnectionState::Error;
    let mut stream = ScriptedStream::new();
    stream.push_write_accept(100);
    stream.push_read_data(vec![1, 2, 3]);
    let mut send = Buffer::new(64);
    let mut recv = Buffer::new(64);
    let r = conn.run(&mut stream, &mut send, &mut recv);
    assert_eq!(r, Err(TransportError::ConnectionAborted));
    assert_eq!(stream.write_calls, 0);
    assert_eq!(stream.read_calls, 0);
    assert_eq!(conn.state, ConnectionState::Error);
}

#[test]
fn read_in_initial_state_is_a_sequencing_fault() {
    let mut conn = Connection::new();
    let mut stream = ScriptedStream::new();
    stream.push_read_data(vec![1, 2, 3]);
    let mut recv = Buffer::new(64);
    let r = conn.read_from_stream(&mut stream, &mut recv);
    assert_eq!(r, Err(TransportError::InvalidState));
    // the fault is detected before any syscall would be issued
    assert_eq!(stream.read_calls, 0);
    assert_eq!(conn.state, ConnectionState::Error);
}

#[test]
fn zero_byte_read_means_peer_closed() {
    let mut conn = connected_connection();
    let mut stream = ScriptedStream::new();
    stream.push_write_would_block();
    stream.push_read_data(Vec::new());
    let mut send = Buffer::new(64);
    let mut recv = Buffer::new(64);
    let r = conn.run(&mut stream, &mut send, &mut recv);
    assert_eq!(r, Ok(ConnectionState::Closed));
    assert_eq!(conn.state, ConnectionState::Closed);
}

#[test]
fn stream_failure_is_fatal_and_propagated_once() {
    let mut conn = connected_connection();
    conn.channel_open(1, Vec::new()).unwrap();
    let mut stream = ScriptedStream::new();
    stream.push_write_failure();
    let mut send = Buffer::new(64);
    let mut recv = Buffer::new(64);
    let r = conn.run(&mut stream, &mut send, &mut recv);
    assert_eq!(r, Err(TransportError::IoFailed));
    assert_eq!(conn.state, ConnectionState::Error);
    // afterwards every run short-circuits
    let r2 = conn.run(&mut stream, &mut send, &mut recv);
    assert_eq!(r2, Err(TransportError::ConnectionAborted));
}

#[test]
fn run_reads_and_parses_incoming_frames() {
    let mut conn = connected_connection();
    let reply = Frame { channel_id: 1, method: Method::ChannelOpenOk }.encode();
    let mut stream = ScriptedStream::new();
    stream.push_read_data(reply);
    stream.push_read_would_block();
    let mut send = Buffer::new(64);
    let mut recv = Buffer::new(64);
    let r = conn.run(&mut stream, &mut send, &mut recv);
    assert_eq!(r, Ok(ConnectionState::Connected));
    // the frame was parsed out of the buffer into the inbound event list
    assert_eq!(recv.available_data(), 0);
    assert_eq!(conn.inbound.len(), 1);
}

#[test]
fn malformed_bytes_drive_error_state() {
    let mut conn = connected_connection();
    let mut stream = ScriptedStream::new();
    stream.push_read_data(vec![0xFF, 0, 0, 0, 0, 0]);
    let mut send = Buffer::new(64);
    let mut recv = Buffer::new(64);
    let r = conn.run(&mut stream, &mut send, &mut recv);
    assert_eq!(r, Err(TransportError::ParseFailed));
    assert_eq!(conn.state, ConnectionState::Error);
}

#[test]
fn incomplete_frame_waits_for_more_input() {
    let mut conn = connected_connection();
    let reply = Frame { channel_id: 1, method: Method::ChannelOpenOk }.encode();
    let (head, tail) = reply.split_at(3);
    let mut stream = ScriptedStream::new();
    stream.push_read_data(head.to_vec());
    stream.push_read_would_block();
    stream.push_read_data(tail.to_vec());
    stream.push_read_would_block();
    let mut send = Buffer::new(64);
    let mut recv = Buffer::new(64);
    let r1 = conn.run(&mut stream, &mut send, &mut recv);
    assert_eq!(r1, Ok(ConnectionState::Connected));
    // nothing was consumed from the partial frame
    assert_eq!(recv.available_data(), 3);
    assert_eq!(conn.inbound.len(), 0);
    let r2 = conn.run(&mut stream, &mut send, &mut recv);
    assert_eq!(r2, Ok(ConnectionState::Connected));
    assert_eq!(recv.available_data(), 0);
    assert_eq!(conn.inbound.len(), 1);
}

#[test]
fn can_write_can_read_can_parse_follow_the_buffers() {
    let mut conn = connected_connection();
    let send = Buffer::new(4);
    let mut recv = Buffer::new(4);
    assert!(!conn.can_write(&send));
    conn.channel_open(1, Vec::new()).unwrap();
    assert!(conn.can_write(&send));
    assert!(conn.can_read(&recv));
    assert!(!conn.can_parse(&recv));
    recv.push_bytes(&vec![1, 2, 3, 4]);
    assert!(!conn.can_read(&recv));
    assert!(conn.can_parse(&recv));
}

#[test]
fn frame_larger_than_send_buffer_stays_queued() {
    // a frame that cannot fit the send buffer is never split: it stays
    // queued and nothing reaches the stream
    let mut conn = connected_connection();
    conn.channel_open(1, vec![0; 10]).unwrap();
    let mut stream = ScriptedStream::new();
    stream.push_write_accept(100);
    stream.push_read_would_block();
    let mut send = Buffer::new(4);
    let mut recv = Buffer::new(16);
    let r = conn.run(&mut stream, &mut send, &mut recv);
    assert_eq!(r, Ok(ConnectionState::Connected));
    assert_eq!(stream.written.len(), 0);
    assert_eq!(conn.frame_queue.len(), 1);
}

#[test]
fn connect_twice_is_a_sequencing_fault() {
    let mut conn = Connection::new();
    assert_eq!(conn.connect(60), Ok(()));
    assert_eq!(conn.state, ConnectionState::Connecting);
    assert_eq!(conn.connect(60), Err(TransportError::InvalidState));
    assert_eq!(conn.frame_queue.len(), 1);
}

#[test]
fn serialize_fills_and_write_consumes_matching_counts() {
    let mut conn = connected_connection();
    conn.channel_open(3, Vec::new()).unwrap();
    let frame = Frame { channel_id: 3, method: Method::ChannelOpen { name: Vec::new() } }.encode();
    let mut stream = ScriptedStream::new();
    stream.push_write_accept(2);
    let mut send = Buffer::new(64);
    let r = conn.write_to_stream(&mut stream, &mut send);
    assert_eq!(r, Ok((2, ConnectionState::Connected)));
    // only the two accepted bytes were consumed; the rest stays buffered
    assert_eq!(stream.written, frame[..2].to_vec());
    assert_eq!(send.available_data(), frame.len() - 2);
    assert_eq!(conn.frame_queue.len(), 0);
}
