//! The fixed nine-byte prefix of every datagram.

use crate::bytes::{
    be16, be32, from_be16, from_be32, lemma_be16_round_trip, lemma_be32_round_trip, push_u16_be,
    push_u32_be, read_u16_be, read_u32_be, tail_from,
};
use crate::sequence::SequenceNumber;
use vstd::prelude::*;

verus! {

/// Number of bytes a `StandardHeader` takes on the wire.
pub const HEADER_BYTES: usize = 9;

/// The kind of a datagram, carried in its first byte.
#[derive(Clone, Copy, Debug, PartialEq, Eq, Structural)]
pub enum PacketType {
    Data,
    Heartbeat,
    ClientChallengeRequest,
    ServerChallengeResponse,
    ClientConnectRequest,
    ServerConnectResponse,
    Unknown,
}

/// The wire byte of each packet type.
pub open spec fn packet_type_byte(t: PacketType) -> u8 {
    match t {
        PacketType::Data => 1,
        PacketType::Heartbeat => 2,
        PacketType::ClientChallengeRequest => 3,
        PacketType::ServerChallengeResponse => 4,
        PacketType::ClientConnectRequest => 5,
        PacketType::ServerConnectResponse => 6,
        PacketType::Unknown => 255,
    }
}

/// The packet type a wire byte stands for; unassigned bytes read as `Unknown`.
pub open spec fn packet_type_of(b: u8) -> PacketType {
    if b == 1 {
        PacketType::Data
    } else if b == 2 {
        PacketType::Heartbeat
    } else if b == 3 {
        PacketType::ClientChallengeRequest
    } else if b == 4 {
        PacketType::ServerChallengeResponse
    } else if b == 5 {
        PacketType::ClientConnectRequest
    } else if b == 6 {
        PacketType::ServerConnectResponse
    } else {
        PacketType::Unknown
    }
}

impl PacketType {
    /// The wire byte of this packet type.
    pub fn to_byte(&self) -> (r: u8)
        ensures
            r == packet_type_byte(*self),
    {
        match self {
            PacketType::Data => 1,
            PacketType::Heartbeat => 2,
            PacketType::ClientChallengeRequest => 3,
            PacketType::ServerChallengeResponse => 4,
            PacketType::ClientConnectRequest => 5,
            PacketType::ServerConnectResponse => 6,
            PacketType::Unknown => 255,
        }
    }

    /// The packet type of a wire byte.
    pub fn from_byte(b: u8) -> (r: PacketType)
        ensures
            r == packet_type_of(b),
    {
        if b == 1 {
            PacketType::Data
        } else if b == 2 {
            PacketType::Heartbeat
        } else if b == 3 {
            PacketType::ClientChallengeRequest
        } else if b == 4 {
            PacketType::ServerChallengeResponse
        } else if b == 5 {
            PacketType::ClientConnectRequest
        } else if b == 6 {
            PacketType::ServerConnectResponse
        } else {
            PacketType::Unknown
        }
    }
}

/// Packet type, the sender's sequence number, and what the sender has
/// received from the peer: the newest sequence and a bitfield of the 32
/// before it.
#[derive(Clone, Copy, Debug, PartialEq, Eq, Structural)]
pub struct StandardHeader {
    pub packet_type: PacketType,
    pub sequence: SequenceNumber,
    pub ack_seq: SequenceNumber,
    pub ack_field: u32,
}

/// The wire form of a header: type byte, then sequence, ack sequence and
/// ack field, big-endian.
pub open spec fn header_bytes(h: StandardHeader) -> Seq<u8> {
    seq![packet_type_byte(h.packet_type)] + be16(h.sequence) + be16(h.ack_seq) + be32(h.ack_field)
}

/// The header that the first nine bytes of `b` encode.
pub open spec fn header_of(b: Seq<u8>) -> StandardHeader {
    StandardHeader {
        packet_type: packet_type_of(b[0]),
        sequence: from_be16(b[1], b[2]),
        ack_seq: from_be16(b[3], b[4]),
        ack_field: from_be32(b[5], b[6], b[7], b[8]),
    }
}

impl StandardHeader {
    /// A header with the given fields.
    pub fn new(
        packet_type: PacketType,
        sequence: SequenceNumber,
        ack_seq: SequenceNumber,
        ack_field: u32,
    ) -> (r: StandardHeader)
        ensures
            r == (StandardHeader { packet_type, sequence, ack_seq, ack_field }),
    {
        StandardHeader { packet_type, sequence, ack_seq, ack_field }
    }

    /// Number of bytes a header takes on the wire.
    pub fn bytes_number() -> (r: usize)
        ensures
            r == 9,
    {
        HEADER_BYTES
    }

    pub fn packet_type(&self) -> (r: PacketType)
        ensures
            r == self.packet_type,
    {
        self.packet_type
    }

    pub fn sequence(&self) -> (r: SequenceNumber)
        ensures
            r == self.sequence,
    {
        self.sequence
    }

    pub fn ack_seq(&self) -> (r: SequenceNumber)
        ensures
            r == self.ack_seq,
    {
        self.ack_seq
    }

    pub fn ack_field(&self) -> (r: u32)
        ensures
            r == self.ack_field,
    {
        self.ack_field
    }

    /// Appends the wire form of this header to `buf`.
    pub fn write(&self, buf: &mut Vec<u8>)
        ensures
            final(buf)@ == old(buf)@ + header_bytes(*self),
    {
        buf.push(self.packet_type.to_byte());
        push_u16_be(buf, self.sequence);
        push_u16_be(buf, self.ack_seq);
        push_u32_be(buf, self.ack_field);
        assert(final(buf)@ =~= old(buf)@ + header_bytes(*self));
    }

    /// Splits a datagram into its header and the bytes after it.
    pub fn read(payload: &[u8]) -> (r: (StandardHeader, Vec<u8>))
        requires
            payload@.len() >= 9,
        ensures
            r.0 == header_of(payload@),
            r.1@ == payload@.subrange(9, payload@.len() as int),
    {
        let packet_type = PacketType::from_byte(payload[0]);
        let sequence = read_u16_be(payload, 1);
        let ack_seq = read_u16_be(payload, 3);
        let ack_field = read_u32_be(payload, 5);
        let header = StandardHeader { packet_type, sequence, ack_seq, ack_field };
        (header, tail_from(payload, HEADER_BYTES))
    }
}

/// Reading a header back from its wire form, followed by any body, gives
/// the same header, and the body is what follows the first nine bytes.
pub proof fn lemma_header_round_trip(h: StandardHeader, body: Seq<u8>)
    ensures
        packet_type_of(packet_type_byte(h.packet_type)) == h.packet_type,
        header_of(header_bytes(h) + body) == h,
        (header_bytes(h) + body).subrange(9, 9 + body.len() as int) == body,
{
    let b = header_bytes(h) + body;
    lemma_be16_round_trip(h.sequence);
    lemma_be16_round_trip(h.ack_seq);
    lemma_be32_round_trip(h.ack_field);
    assert(b[1] == be16(h.sequence)[0] && b[2] == be16(h.sequence)[1]);
    assert(b[3] == be16(h.ack_seq)[0] && b[4] == be16(h.ack_seq)[1]);
    assert(b[5] == be32(h.ack_field)[0] && b[6] == be32(h.ack_field)[1]);
    assert(b[7] == be32(h.ack_field)[2] && b[8] == be32(h.ack_field)[3]);
    assert(b.subrange(9, 9 + body.len() as int) =~= body);
}

} // verus!
