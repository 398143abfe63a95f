//! Frames and their byte codec.
//!
//! A frame is one unit of the wire encoding: a method tag, the id of the
//! channel it belongs to, a length-prefixed payload and a closing marker
//! byte. The codec is specified by [`frame_bytes`] (encoding) and
//! [`spec_parse`] (decoding); [`lemma_codec_round_trip`] proves that decoding
//! an encoded frame, whatever bytes follow it, yields the frame back and
//! consumes exactly its encoding.

use vstd::prelude::*;

verus! {

/// Closing marker of every frame on the wire.
pub const FRAME_END: u8 = 0xCE;

/// A protocol method carried inside a frame.
pub enum Method {
    /// Connection-level open request, carrying the heartbeat interval in seconds.
    ConnectionOpen { heartbeat: u16 },
    /// Reply to [`Method::ConnectionOpen`].
    ConnectionOpenOk,
    /// Channel-level open request, carrying the channel's name.
    ChannelOpen { name: Vec<u8> },
    /// Reply to [`Method::ChannelOpen`].
    ChannelOpenOk,
}

/// One unit of the wire protocol: a method addressed to a channel
/// (channel id 0 is the connection itself).
pub struct Frame {
    pub channel_id: u16,
    pub method: Method,
}

/// Mathematical model of a [`Method`].
pub enum MethodModel {
    ConnectionOpen { heartbeat: u16 },
    ConnectionOpenOk,
    ChannelOpen { name: Seq<u8> },
    ChannelOpenOk,
}

/// Mathematical model of a [`Frame`].
pub struct FrameModel {
    pub channel_id: u16,
    pub method: MethodModel,
}

impl View for Method {
    type V = MethodModel;

    open spec fn view(&self) -> MethodModel {
        match self {
            Method::ConnectionOpen { heartbeat } => MethodModel::ConnectionOpen {
                heartbeat: *heartbeat,
            },
            Method::ConnectionOpenOk => MethodModel::ConnectionOpenOk,
            Method::ChannelOpen { name } => MethodModel::ChannelOpen { name: name@ },
            Method::ChannelOpenOk => MethodModel::ChannelOpenOk,
        }
    }
}

impl View for Frame {
    type V = FrameModel;

    open spec fn view(&self) -> FrameModel {
        FrameModel { channel_id: self.channel_id, method: self.method@ }
    }
}

/// Big-endian encoding of a 16-bit integer.
pub open spec fn be16(x: u16) -> Seq<u8> {
    seq![(x / 256) as u8, (x % 256) as u8]
}

/// Wire tag of a method.
pub open spec fn method_tag(m: MethodModel) -> u8 {
    match m {
        MethodModel::ConnectionOpen { .. } => 1,
        MethodModel::ConnectionOpenOk => 2,
        MethodModel::ChannelOpen { .. } => 3,
        MethodModel::ChannelOpenOk => 4,
    }
}

/// Payload bytes of a method.
pub open spec fn payload_bytes(m: MethodModel) -> Seq<u8> {
    match m {
        MethodModel::ConnectionOpen { heartbeat } => be16(heartbeat),
        MethodModel::ConnectionOpenOk => Seq::<u8>::empty(),
        MethodModel::ChannelOpen { name } => name,
        MethodModel::ChannelOpenOk => Seq::<u8>::empty(),
    }
}

/// A frame is encodable when its payload length fits the 16-bit length prefix.
pub open spec fn frame_wf(f: FrameModel) -> bool {
    payload_bytes(f.method).len() <= u16::MAX
}

/// The wire encoding of a frame: tag, channel id, payload length, payload,
/// closing marker.
pub open spec fn frame_bytes(f: FrameModel) -> Seq<u8> {
    seq![method_tag(f.method)] + be16(f.channel_id) + be16(
        payload_bytes(f.method).len() as u16,
    ) + payload_bytes(f.method) + seq![FRAME_END]
}

/// Length in bytes of a frame's encoding.
pub open spec fn frame_len(f: FrameModel) -> nat {
    6 + payload_bytes(f.method).len()
}

/// Tags that denote a method of the protocol.
pub open spec fn valid_tag(t: u8) -> bool {
    t == 1 || t == 2 || t == 3 || t == 4
}

/// Decoding of a payload, given the frame's tag.
pub open spec fn spec_payload_method(tag: u8, payload: Seq<u8>) -> Option<MethodModel> {
    if tag == 1 {
        if payload.len() == 2 {
            Some(
                MethodModel::ConnectionOpen {
                    heartbeat: (payload[0] as int * 256 + payload[1] as int) as u16,
                },
            )
        } else {
            None
        }
    } else if tag == 2 {
        if payload.len() == 0 {
            Some(MethodModel::ConnectionOpenOk)
        } else {
            None
        }
    } else if tag == 3 {
        Some(MethodModel::ChannelOpen { name: payload })
    } else if tag == 4 {
        if payload.len() == 0 {
            Some(MethodModel::ChannelOpenOk)
        } else {
            None
        }
    } else {
        None
    }
}

/// Outcome of decoding a byte sequence's prefix.
pub enum SpecParseResult {
    /// A whole frame stands at the front, encoded in `len` bytes.
    Parsed { frame: FrameModel, len: nat },
    /// Fewer bytes than one whole frame requires.
    Incomplete,
    /// The prefix cannot be any frame's encoding.
    Malformed,
}

/// Decoding: what the prefix of `bytes` holds.
pub open spec fn spec_parse(bytes: Seq<u8>) -> SpecParseResult {
    if bytes.len() < 5 {
        SpecParseResult::Incomplete
    } else {
        let tag = bytes[0];
        let channel = (bytes[1] as int * 256 + bytes[2] as int) as u16;
        let plen = bytes[3] as int * 256 + bytes[4] as int;
        let total = 6 + plen;
        if !valid_tag(tag) {
            SpecParseResult::Malformed
        } else if bytes.len() < total {
            SpecParseResult::Incomplete
        } else if bytes[total - 1] != FRAME_END {
            SpecParseResult::Malformed
        } else {
            match spec_payload_method(tag, bytes.subrange(5, 5 + plen)) {
                Some(m) => SpecParseResult::Parsed {
                    frame: FrameModel { channel_id: channel, method: m },
                    len: total as nat,
                },
                None => SpecParseResult::Malformed,
            }
        }
    }
}

impl Frame {
    /// Encodes the frame to its wire bytes.
    pub fn encode(&self) -> (r: Vec<u8>)
        requires
            frame_wf(self@),
        ensures
            r@ == frame_bytes(self@),
    {
        let mut out: Vec<u8> = Vec::new();
        let tag: u8 = match &self.method {
            Method::ConnectionOpen { .. } => 1,
            Method::ConnectionOpenOk => 2,
            Method::ChannelOpen { .. } => 3,
            Method::ChannelOpenOk => 4,
        };
        let plen: u16 = match &self.method {
            Method::ConnectionOpen { .. } => 2,
            Method::ConnectionOpenOk => 0,
            Method::ChannelOpen { name } => name.len() as u16,
            Method::ChannelOpenOk => 0,
        };
        out.push(tag);
        out.push((self.channel_id / 256) as u8);
        out.push((self.channel_id % 256) as u8);
        out.push((plen / 256) as u8);
        out.push((plen % 256) as u8);
        let ghost header = seq![method_tag(self@.method)] + be16(self.channel_id) + be16(
            payload_bytes(self@.method).len() as u16,
        );
        proof {
            assert(out@ =~= header);
        }
        match &self.method {
            Method::ConnectionOpen { heartbeat } => {
                out.push((*heartbeat / 256) as u8);
                out.push((*heartbeat % 256) as u8);
                proof {
                    assert(out@ =~= header + payload_bytes(self@.method));
                }
            },
            Method::ConnectionOpenOk => {
                proof {
                    assert(out@ =~= header + payload_bytes(self@.method));
                }
            },
            Method::ChannelOpen { name } => {
                let mut i: usize = 0;
                while i < name.len()
                    invariant
                        i <= name@.len(),
                        out@ == header + name@.take(i as int),
                    decreases name@.len() - i,
                {
                    out.push(name[i]);
                    proof {
                        assert(out@ =~= header + name@.take(i + 1));
                    }
                    i = i + 1;
                }
                proof {
                    assert(name@.take(name@.len() as int) =~= name@);
                    assert(out@ =~= header + payload_bytes(self@.method));
                }
            },
            Method::ChannelOpenOk => {
                proof {
                    assert(out@ =~= header + payload_bytes(self@.method));
                }
            },
        }
        out.push(FRAME_END);
        proof {
            assert(out@ =~= frame_bytes(self@));
        }
        out
    }
}

/// Outcome of one attempt to decode the frame at the front of a buffer's
/// unread region.
pub enum DecodeOutcome {
    /// A whole frame stood at the front, encoded in this many bytes.
    Parsed(Frame, usize),
    /// Fewer bytes than one whole frame requires; nothing is consumed.
    Incomplete,
    /// The bytes at the front cannot be any frame's encoding.
    Malformed,
}

/// Decodes the frame at the front of the buffer's unread region, if a whole
/// one stands there, without consuming anything.
pub fn decode_prefix(buf: &crate::buffer::Buffer) -> (r: DecodeOutcome)
    requires
        buf.wf(),
    ensures
        (match r {
            DecodeOutcome::Parsed(f, n) => spec_parse(buf@.data) == (SpecParseResult::Parsed {
                frame: f@,
                len: n as nat,
            }) && 6 <= n <= buf@.data.len() && frame_wf(f@),
            DecodeOutcome::Incomplete => spec_parse(buf@.data) is Incomplete,
            DecodeOutcome::Malformed => spec_parse(buf@.data) is Malformed,
        }),
{
    let len = buf.available_data();
    if len < 5 {
        return DecodeOutcome::Incomplete;
    }
    let tag = buf.byte_at(0);
    if !(tag == 1 || tag == 2 || tag == 3 || tag == 4) {
        return DecodeOutcome::Malformed;
    }
    let channel: u16 = (buf.byte_at(1) as u16) * 256 + (buf.byte_at(2) as u16);
    let plen: usize = (buf.byte_at(3) as usize) * 256 + (buf.byte_at(4) as usize);
    let total: usize = 6 + plen;
    if len < total {
        return DecodeOutcome::Incomplete;
    }
    if buf.byte_at(total - 1) != FRAME_END {
        return DecodeOutcome::Malformed;
    }
    let ghost payload = buf@.data.subrange(5, 5 + plen as int);
    let method: Method = if tag == 1 {
        if plen != 2 {
            return DecodeOutcome::Malformed;
        }
        let heartbeat: u16 = (buf.byte_at(5) as u16) * 256 + (buf.byte_at(6) as u16);
        Method::ConnectionOpen { heartbeat }
    } else if tag == 2 {
        if plen != 0 {
            return DecodeOutcome::Malformed;
        }
        Method::ConnectionOpenOk
    } else if tag == 3 {
        let mut name: Vec<u8> = Vec::new();
        let mut i: usize = 0;
        while i < plen
            invariant
                buf.wf(),
                i <= plen,
                plen <= 0xFFFF,
                5 + plen <= buf@.data.len(),
                payload == buf@.data.subrange(5, 5 + plen as int),
                name@ == payload.take(i as int),
            decreases plen - i,
        {
            name.push(buf.byte_at(5 + i));
            proof {
                assert(name@ =~= payload.take(i + 1));
            }
            i = i + 1;
        }
        proof {
            assert(name@ =~= payload);
        }
        Method::ChannelOpen { name }
    } else {
        if plen != 0 {
            return DecodeOutcome::Malformed;
        }
        Method::ChannelOpenOk
    };
    let f = Frame { channel_id: channel, method };
    proof {
        assert(spec_payload_method(tag, payload) == Some(f@.method));
        assert(spec_parse(buf@.data) == (SpecParseResult::Parsed {
            frame: f@,
            len: total as nat,
        }));
    }
    DecodeOutcome::Parsed(f, total)
}

/// A 16-bit value assembled from two bytes takes them back as its two
/// big-endian digits.
pub proof fn lemma_be16_digits(a: u8, b: u8)
    ensures
        be16((a as int * 256 + b as int) as u16) == seq![a, b],
{
    let x = (a as int * 256 + b as int) as u16;
    assert(x == a as int * 256 + b as int);
    assert(x / 256 == a as int && x % 256 == b as int) by (nonlinear_arith)
        requires
            x == a as int * 256 + b as int,
            0 <= a < 256,
            0 <= b < 256,
    ;
    assert(be16(x) =~= seq![a, b]);
}

/// Decoding pins the bytes: the prefix a parsed frame was decoded from is
/// exactly that frame's encoding — no other bytes decode to it.
pub proof fn lemma_parse_exact(bytes: Seq<u8>)
    requires
        spec_parse(bytes) is Parsed,
    ensures
        frame_wf(spec_parse(bytes)->Parsed_frame),
        6 <= spec_parse(bytes)->Parsed_len <= bytes.len(),
        bytes.take(spec_parse(bytes)->Parsed_len as int) == frame_bytes(
            spec_parse(bytes)->Parsed_frame,
        ),
{
    let tag = bytes[0];
    let plen = bytes[3] as int * 256 + bytes[4] as int;
    let payload = bytes.subrange(5, 5 + plen);
    let f = spec_parse(bytes)->Parsed_frame;
    let len = spec_parse(bytes)->Parsed_len;
    lemma_be16_digits(bytes[1], bytes[2]);
    lemma_be16_digits(bytes[3], bytes[4]);
    assert(payload_bytes(f.method).len() == plen);
    assert(be16(f.channel_id) == seq![bytes[1], bytes[2]]);
    assert(be16(payload_bytes(f.method).len() as u16) == seq![bytes[3], bytes[4]]);
    if tag == 1 {
        lemma_be16_digits(payload[0], payload[1]);
        assert(payload_bytes(f.method) =~= payload);
    } else if tag == 3 {
        assert(payload_bytes(f.method) == payload);
    } else {
        assert(payload_bytes(f.method) =~= payload);
    }
    assert(bytes.take(len as int) =~= frame_bytes(f));
}

/// The whole frames standing at the front of a byte sequence, and the bytes
/// they occupy. The decomposition stops at the first prefix that is not one
/// whole frame — incomplete or malformed.
pub open spec fn parse_frames(bytes: Seq<u8>) -> (Seq<FrameModel>, nat)
    decreases bytes.len(),
{
    match spec_parse(bytes) {
        SpecParseResult::Parsed { frame, len } => {
            if 1 <= len <= bytes.len() {
                let r = parse_frames(bytes.skip(len as int));
                (seq![frame] + r.0, (len + r.1) as nat)
            } else {
                (Seq::<FrameModel>::empty(), 0)
            }
        },
        SpecParseResult::Incomplete => (Seq::<FrameModel>::empty(), 0),
        SpecParseResult::Malformed => (Seq::<FrameModel>::empty(), 0),
    }
}

/// One step of the whole-frame decomposition.
pub proof fn lemma_parse_frames_step(bytes: Seq<u8>)
    requires
        spec_parse(bytes) is Parsed,
    ensures
        ({
            let frame = spec_parse(bytes)->Parsed_frame;
            let len = spec_parse(bytes)->Parsed_len;
            let r = parse_frames(bytes.skip(len as int));
            parse_frames(bytes) == (seq![frame] + r.0, (len + r.1) as nat)
        }),
{
    lemma_parse_exact(bytes);
}

/// The two bytes of a big-endian 16-bit encoding recombine to the value.
pub proof fn lemma_be16_round_trip(x: u16)
    ensures
        be16(x)[0] as int * 256 + be16(x)[1] as int == x,
        be16(x).len() == 2,
{
    assert(x / 256 < 256) by (nonlinear_arith);
    assert((x / 256) as int * 256 + (x % 256) as int == x) by (nonlinear_arith);
}

/// Round trip: decoding the encoding of a well-formed frame, whatever bytes
/// follow it, yields that frame and consumes exactly its encoding.
pub proof fn lemma_codec_round_trip(f: FrameModel, rest: Seq<u8>)
    requires
        frame_wf(f),
    ensures
        spec_parse(frame_bytes(f) + rest) == (SpecParseResult::Parsed {
            frame: f,
            len: frame_len(f),
        }),
{
    let p = payload_bytes(f.method);
    let b = frame_bytes(f) + rest;
    lemma_be16_round_trip(f.channel_id);
    lemma_be16_round_trip(p.len() as u16);
    assert(b[0] == method_tag(f.method));
    assert(b[1] == be16(f.channel_id)[0]);
    assert(b[2] == be16(f.channel_id)[1]);
    assert(b[3] == be16(p.len() as u16)[0]);
    assert(b[4] == be16(p.len() as u16)[1]);
    let plen = b[3] as int * 256 + b[4] as int;
    assert(plen == p.len());
    assert((b[1] as int * 256 + b[2] as int) as u16 == f.channel_id);
    assert(b.len() == 6 + p.len() + rest.len());
    assert(b[5 + p.len() as int] == FRAME_END);
    assert(b.subrange(5, 5 + plen) =~= p);
    match f.method {
        MethodModel::ConnectionOpen { heartbeat } => {
            lemma_be16_round_trip(heartbeat);
            assert(spec_payload_method(1, p) == Some(
                MethodModel::ConnectionOpen { heartbeat },
            ));
        },
        MethodModel::ConnectionOpenOk => {},
        MethodModel::ChannelOpen { name } => {},
        MethodModel::ChannelOpenOk => {},
    }
}

} // verus!
