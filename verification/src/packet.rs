//! Packets and their frames: the wire format and its codec.

use crate::error::{length_message, terminator_message, Fault, RconError};
use crate::wire::{
    i32_from_le, i32_to_le, lemma_i32_le_round_trip, lemma_i32_le_unique, push_i32_le, read_i32_le,
};
use vstd::prelude::*;
use vstd::slice::slice_to_vec;
use vstd::utf8::{
    decode_utf8, decode_utf8_encode_utf8, encode_utf8, encode_utf8_decode_utf8,
    encode_utf8_valid_utf8, valid_utf8,
};

verus! {

/// The longest body, in bytes, that a frame can carry.
pub const MAX_BODY_LEN: usize = 4086;

/// The length of a frame with an empty body: prefix, id, type, terminator.
pub const MIN_FRAME_LEN: usize = 14;

/// The length of the longest frame that a packet can have.
pub const MAX_FRAME_LEN: usize = 4100;

/// The role of a packet. Two roles share a code on the wire; which one is
/// meant follows from the place in the exchange.
#[derive(Clone, Copy, Debug)]
pub enum RconPacketType {
    Auth,
    ExecCommand,
    AuthResponse,
    ResponseValue,
    Unknown(i32),
}

impl RconPacketType {
    /// The code that stands for this role in a frame.
    pub open spec fn code(&self) -> i32 {
        match *self {
            RconPacketType::Auth => 3,
            RconPacketType::ExecCommand => 2,
            RconPacketType::AuthResponse => 2,
            RconPacketType::ResponseValue => 0,
            RconPacketType::Unknown(n) => n,
        }
    }

    pub fn to_i32(&self) -> (code: i32)
        ensures
            code == self.code(),
    {
        match self {
            RconPacketType::Auth => 3,
            RconPacketType::ExecCommand => 2,
            RconPacketType::AuthResponse => 2,
            RconPacketType::ResponseValue => 0,
            RconPacketType::Unknown(n) => *n,
        }
    }
}

impl From<RconPacketType> for i32 {
    fn from(value: RconPacketType) -> (code: i32) {
        value.to_i32()
    }
}

impl vstd::std_specs::convert::FromSpecImpl<RconPacketType> for i32 {
    open spec fn obeys_from_spec() -> bool {
        true
    }

    open spec fn from_spec(value: RconPacketType) -> i32 {
        value.code()
    }
}

/// One unit of the exchange.
#[derive(Debug)]
pub struct RconPacket {
    pub p_id: i32,
    pub p_type: i32,
    pub body: String,
}

/// The mathematical value of a packet.
pub struct PacketView {
    pub id: i32,
    pub kind: i32,
    pub body: Seq<char>,
}

impl View for RconPacket {
    type V = PacketView;

    open spec fn view(&self) -> PacketView {
        PacketView { id: self.p_id, kind: self.p_type, body: self.body@ }
    }
}

/// What `String::from_utf8_lossy` makes of a byte sequence.
pub uninterp spec fn utf8_lossy(bytes: Seq<u8>) -> Seq<char>;

/// The text that a body's bytes are read as: the characters they encode
/// where they are valid UTF-8, and the lossy reading otherwise.
pub open spec fn text_of(bytes: Seq<u8>) -> Seq<char> {
    if valid_utf8(bytes) {
        decode_utf8(bytes)
    } else {
        utf8_lossy(bytes)
    }
}

/// The frame of a packet: the length of all that follows the prefix, the
/// id, the type, the body in UTF-8 and two zero bytes.
pub open spec fn encode(p: PacketView) -> Seq<u8> {
    let body = encode_utf8(p.body);
    i32_to_le((body.len() + 10) as i32) + i32_to_le(p.id) + i32_to_le(p.kind) + body + seq![
        0u8,
        0u8,
    ]
}

/// Whether a frame can carry the packet's body.
pub open spec fn framable(p: PacketView) -> bool {
    encode_utf8(p.body).len() <= MAX_BODY_LEN
}

/// Whether a buffer is long enough for a frame and its prefix gives the
/// number of bytes that follow the prefix.
pub open spec fn well_framed(buf: Seq<u8>) -> bool {
    buf.len() >= MIN_FRAME_LEN && i32_from_le(buf.subrange(0, 4)) == buf.len() - 4
}

/// The packet in a buffer that holds exactly one frame, or the fault.
pub open spec fn decode(buf: Seq<u8>) -> Result<PacketView, Fault> {
    if well_framed(buf) {
        Ok(
            PacketView {
                id: i32_from_le(buf.subrange(4, 8)),
                kind: i32_from_le(buf.subrange(8, 12)),
                body: text_of(buf.subrange(12, buf.len() - 2)),
            },
        )
    } else {
        Err(Fault::Malformed { buffer: buf, message: length_message() })
    }
}

/// Whether a buffer ends in two zero bytes.
pub open spec fn terminated(buf: Seq<u8>) -> bool {
    buf.len() >= 2 && buf[buf.len() - 2] == 0 && buf[buf.len() - 1] == 0
}

/// The packet in a frame taken off a stream: the terminator is looked at
/// first, then the frame is decoded.
pub open spec fn decode_frame(buf: Seq<u8>) -> Result<PacketView, Fault> {
    if terminated(buf) {
        decode(buf)
    } else {
        Err(Fault::Malformed { buffer: buf, message: terminator_message() })
    }
}

/// The model of a decoding result.
pub open spec fn decoded(r: Result<RconPacket, RconError>) -> Result<PacketView, Fault> {
    match r {
        Ok(p) => Ok(p@),
        Err(e) => Err(e@),
    }
}

/// `String::from_utf8_lossy`, made into an owned string. Its result is a
/// function of the bytes, and on valid UTF-8 it is the text that the bytes
/// encode. What it puts in the place of an invalid sequence is not
/// described here, only named.
#[verifier::external_body]
fn lossy_text(bytes: &[u8]) -> (text: String)
    ensures
        text@ == utf8_lossy(bytes@),
        valid_utf8(bytes@) ==> text@ == decode_utf8(bytes@),
{
    String::from_utf8_lossy(bytes).into_owned()
}

impl RconPacket {
    /// A packet of the given fields.
    pub fn new(p_id: i32, p_type: i32, body: &str) -> (p: Self)
        requires
            encode_utf8(body@).len() <= MAX_BODY_LEN,
        ensures
            p@ == (PacketView { id: p_id, kind: p_type, body: body@ }),
            framable(p@),
    {
        RconPacket { p_id, p_type, body: body.to_owned() }
    }

    /// Decodes a buffer that holds exactly one frame. The two last bytes
    /// are skipped, not looked at.
    pub fn from_bytes(buf: &[u8]) -> (r: Result<Self, RconError>)
        ensures
            decoded(r) == decode(buf@),
            buf@.len() < 4 || i32_from_le(buf@.subrange(0, 4)) != buf@.len() - 4
                ==> (r matches Err(RconError::InvalidPacket { buffer, message }) && buffer@
                == buf@ && message@ == length_message()),
    {
        let len: usize = buf.len();
        if len < MIN_FRAME_LEN {
            return Err(
                RconError::InvalidPacket {
                    buffer: slice_to_vec(buf),
                    message: "length different from expected",
                },
            );
        }
        let packet_size: i32 = read_i32_le(buf, 0);
        if packet_size < 10 || packet_size as usize != len - 4 {
            return Err(
                RconError::InvalidPacket {
                    buffer: slice_to_vec(buf),
                    message: "length different from expected",
                },
            );
        }
        let p_id: i32 = read_i32_le(buf, 4);
        let p_type: i32 = read_i32_le(buf, 8);
        let body = lossy_text(&buf[12..len - 2]);
        Ok(RconPacket { p_id, p_type, body })
    }

    /// Decodes a frame taken off a stream: a frame that does not end in two
    /// zero bytes is refused, whatever its prefix says.
    pub fn from_frame(buf: &[u8]) -> (r: Result<Self, RconError>)
        ensures
            decoded(r) == decode_frame(buf@),
            !terminated(buf@) ==> (r matches Err(RconError::InvalidPacket { buffer, message })
                && buffer@ == buf@ && message@ == terminator_message()),
    {
        let len: usize = buf.len();
        if len < 2 || buf[len - 2] != 0 || buf[len - 1] != 0 {
            return Err(
                RconError::InvalidPacket {
                    buffer: slice_to_vec(buf),
                    message: "packet didn't end with 0x0000",
                },
            );
        }
        RconPacket::from_bytes(buf)
    }

    /// The frame of this packet.
    pub fn as_bytes(&self) -> (bytes: Vec<u8>)
        requires
            framable(self@),
        ensures
            bytes@ == encode(self@),
            bytes@.len() <= MAX_FRAME_LEN,
    {
        let body = self.body.as_str().as_bytes();
        let n: usize = body.len();
        let mut buffer: Vec<u8> = Vec::with_capacity(n + MIN_FRAME_LEN);
        push_i32_le(&mut buffer, (n + 10) as i32);
        push_i32_le(&mut buffer, self.p_id);
        push_i32_le(&mut buffer, self.p_type);
        buffer.extend_from_slice(body);
        buffer.push(0);
        buffer.push(0);
        assert(buffer@ =~= encode(self@));
        buffer
    }
}

/// The frame of a packet has its body's length and fourteen bytes more, and
/// ends in two zero bytes.
pub proof fn lemma_encode_shape(p: PacketView)
    ensures
        encode(p).len() == encode_utf8(p.body).len() + MIN_FRAME_LEN,
        terminated(encode(p)),
        encode(p).subrange(0, 4) == i32_to_le((encode_utf8(p.body).len() + 10) as i32),
        encode(p).subrange(4, 8) == i32_to_le(p.id),
        encode(p).subrange(8, 12) == i32_to_le(p.kind),
        encode(p).subrange(12, encode(p).len() - 2) == encode_utf8(p.body),
{
    let body = encode_utf8(p.body);
    let f = encode(p);
    assert(f.subrange(0, 4) =~= i32_to_le((body.len() + 10) as i32));
    assert(f.subrange(4, 8) =~= i32_to_le(p.id));
    assert(f.subrange(8, 12) =~= i32_to_le(p.kind));
    assert(f.subrange(12, f.len() - 2) =~= body);
}

/// Decoding a packet's frame gives the packet back, by either decoder, for
/// every packet whose body a frame can carry.
pub proof fn lemma_round_trip(p: PacketView)
    requires
        framable(p),
    ensures
        decode(encode(p)) == Ok::<PacketView, Fault>(p),
        decode_frame(encode(p)) == Ok::<PacketView, Fault>(p),
{
    let body = encode_utf8(p.body);
    lemma_encode_shape(p);
    lemma_i32_le_round_trip((body.len() + 10) as i32);
    lemma_i32_le_round_trip(p.id);
    lemma_i32_le_round_trip(p.kind);
    encode_utf8_valid_utf8(p.body);
    encode_utf8_decode_utf8(p.body);
}

/// A frame says one thing only: a buffer that ends in the terminator and
/// decodes to a packet, its body being valid UTF-8, is the frame of that
/// packet and of no other.
pub proof fn lemma_decode_is_exact(buf: Seq<u8>, p: PacketView)
    requires
        decode_frame(buf) == Ok::<PacketView, Fault>(p),
        valid_utf8(buf.subrange(12, buf.len() - 2)),
    ensures
        encode(p) == buf,
{
    let body = buf.subrange(12, buf.len() - 2);
    decode_utf8_encode_utf8(body);
    lemma_i32_le_unique(buf.subrange(0, 4));
    lemma_i32_le_unique(buf.subrange(4, 8));
    lemma_i32_le_unique(buf.subrange(8, 12));
    assert(encode_utf8(p.body) == body);
    assert((body.len() + 10) as i32 == i32_from_le(buf.subrange(0, 4)));
    assert(encode(p) =~= buf);
}

} // verus!
