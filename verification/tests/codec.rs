use lapin_core::buffer::Buffer;
use lapin_core::frame::{decode_prefix, DecodeOutcome, Frame, Method, FRAME_END};

#[test]
fn channel_open_encodes_exactly() {
    let f = Frame { channel_id: 1, method: Method::ChannelOpen { name: vec![b'q', b'x'] } };
    let bytes = f.encode();
    // tag 3, channel 1 big-endian, payload length 2 big-endian, name, marker
    assert_eq!(bytes, vec![3, 0, 1, 0, 2, b'q', b'x', FRAME_END]);
}

#[test]
fn connection_open_encodes_exactly() {
    let f = Frame { channel_id: 0, method: Method::ConnectionOpen { heartbeat: 60 } };
    let bytes = f.encode();
    assert_eq!(bytes, vec![1, 0, 0, 0, 2, 0, 60, FRAME_END]);
}

#[test]
fn channel_open_ok_encodes_exactly() {
    let f = Frame { channel_id: 258, method: Method::ChannelOpenOk };
    let bytes = f.encode();
    // channel 258 = 0x0102 big-endian
    assert_eq!(bytes, vec![4, 1, 2, 0, 0, FRAME_END]);
}

#[test]
fn decode_round_trips_an_encoded_frame() {
    let f = Frame { channel_id: 7, method: Method::ChannelOpen { name: vec![1, 2, 3] } };
    let mut bytes = f.encode();
    let n_expected = bytes.len();
    // trailing bytes of a following frame must not disturb the decode
    bytes.push(0xAA);
    let mut buf = Buffer::new(64);
    buf.push_bytes(&bytes);
    match decode_prefix(&buf) {
        DecodeOutcome::Parsed(g, n) => {
            assert_eq!(n, n_expected);
            assert_eq!(g.channel_id, 7);
            assert!(matches!(g.method, Method::ChannelOpen { ref name } if *name == vec![1, 2, 3]));
        },
        _ => panic!("expected a parsed frame"),
    }
}

#[test]
fn decode_reports_incomplete_on_short_input() {
    let f = Frame { channel_id: 7, method: Method::ConnectionOpenOk };
    let bytes = f.encode();
    let mut buf = Buffer::new(64);
    buf.push_bytes(&bytes[..bytes.len() - 1].to_vec());
    assert!(matches!(decode_prefix(&buf), DecodeOutcome::Incomplete));
    // an empty buffer is incomplete too, never an error
    let empty = Buffer::new(8);
    assert!(matches!(decode_prefix(&empty), DecodeOutcome::Incomplete));
}

#[test]
fn decode_reports_malformed_on_bad_tag_or_marker() {
    let mut buf = Buffer::new(64);
    buf.push_bytes(&vec![9, 0, 1, 0, 0, FRAME_END]);
    assert!(matches!(decode_prefix(&buf), DecodeOutcome::Malformed));
    let mut buf2 = Buffer::new(64);
    buf2.push_bytes(&vec![2, 0, 0, 0, 0, 0x00]);
    assert!(matches!(decode_prefix(&buf2), DecodeOutcome::Malformed));
}
