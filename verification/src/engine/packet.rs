//! The engine packet codec: one transport-level packet is a type digit
//! followed by the raw payload bytes, with no length prefix and no
//! terminator.

use vstd::prelude::*;

verus! {

/// Decode-time errors of the engine codecs.
#[derive(Debug, Clone, Copy, PartialEq, Eq, Structural)]
pub enum Error {
    /// The input ended before a required delimiter, length or byte count
    /// was satisfied.
    IncompletePacket,
    /// The type discriminator is outside the valid set.
    InvalidPacketId(u8),
    /// A structurally required field failed to parse.
    InvalidPacket,
    /// A payload that must be JSON is not, or lacks a required field.
    InvalidJson,
    /// Bytes that must be UTF-8 text are not.
    InvalidUtf8,
}

/// The seven transport-level packet kinds, each with a canonical number
/// 0 through 6.
#[derive(Debug, Clone, Copy, PartialEq, Eq, Structural)]
pub enum PacketId {
    Open,
    Close,
    Ping,
    Pong,
    Message,
    Upgrade,
    Noop,
}

/// Canonical number of a packet kind.
pub open spec fn packet_code(id: PacketId) -> u8 {
    match id {
        PacketId::Open => 0,
        PacketId::Close => 1,
        PacketId::Ping => 2,
        PacketId::Pong => 3,
        PacketId::Message => 4,
        PacketId::Upgrade => 5,
        PacketId::Noop => 6,
    }
}

/// Byte of the ASCII digit that renders a packet kind in text framing.
pub open spec fn packet_digit(id: PacketId) -> u8 {
    (packet_code(id) + 0x30) as u8
}

/// The packet kind a type byte denotes. Both the raw value 0 through 6 and
/// the ASCII digit `'0'` through `'6'` are accepted, so the same table
/// serves the binary and the text sub-formats.
pub open spec fn id_of_byte(b: u8) -> Option<PacketId> {
    if b == 0 || b == 0x30 {
        Some(PacketId::Open)
    } else if b == 1 || b == 0x31 {
        Some(PacketId::Close)
    } else if b == 2 || b == 0x32 {
        Some(PacketId::Ping)
    } else if b == 3 || b == 0x33 {
        Some(PacketId::Pong)
    } else if b == 4 || b == 0x34 {
        Some(PacketId::Message)
    } else if b == 5 || b == 0x35 {
        Some(PacketId::Upgrade)
    } else if b == 6 || b == 0x36 {
        Some(PacketId::Noop)
    } else {
        None
    }
}

/// What converting a type byte returns: the packet kind, or exactly which
/// byte was rejected.
pub open spec fn parse_packet_id(b: u8) -> Result<PacketId, Error> {
    match id_of_byte(b) {
        Some(id) => Ok(id),
        None => Err(Error::InvalidPacketId(b)),
    }
}

impl PacketId {
    /// Canonical number of this packet kind.
    pub fn to_u8(self) -> (r: u8)
        ensures
            r == packet_code(self),
    {
        match self {
            PacketId::Open => 0,
            PacketId::Close => 1,
            PacketId::Ping => 2,
            PacketId::Pong => 3,
            PacketId::Message => 4,
            PacketId::Upgrade => 5,
            PacketId::Noop => 6,
        }
    }

    /// Byte of the ASCII digit that renders this packet kind.
    pub fn to_string_byte(self) -> (r: u8)
        ensures
            r == packet_digit(self),
    {
        self.to_u8() + 0x30
    }

    /// Converts a type byte into the packet kind it denotes, accepting the
    /// raw value 0 through 6 as well as the ASCII digit.
    pub fn try_from(b: u8) -> (r: Result<PacketId, Error>)
        ensures
            r == parse_packet_id(b),
    {
        match b {
            0 | 0x30 => Ok(PacketId::Open),
            1 | 0x31 => Ok(PacketId::Close),
            2 | 0x32 => Ok(PacketId::Ping),
            3 | 0x33 => Ok(PacketId::Pong),
            4 | 0x34 => Ok(PacketId::Message),
            5 | 0x35 => Ok(PacketId::Upgrade),
            6 | 0x36 => Ok(PacketId::Noop),
            _ => Err(Error::InvalidPacketId(b)),
        }
    }
}

/// A packet sent via the engine protocol: a kind and an opaque payload.
#[derive(Debug, Clone)]
pub struct Packet {
    pub packet_id: PacketId,
    pub data: Vec<u8>,
}

/// The mathematical model of an engine packet.
pub ghost struct PacketModel {
    pub id: PacketId,
    pub data: Seq<u8>,
}

impl View for Packet {
    type V = PacketModel;

    open spec fn view(&self) -> PacketModel {
        PacketModel { id: self.packet_id, data: self.data@ }
    }
}

/// The exact bytes that encode an engine packet: the ASCII type digit, then
/// the payload verbatim.
pub open spec fn encode_packet(m: PacketModel) -> Seq<u8> {
    seq![packet_digit(m.id)] + m.data
}

/// What decoding bytes as an engine packet returns: empty input is
/// incomplete, an unknown type byte is rejected by value, and otherwise the
/// rest of the input is the payload verbatim.
pub open spec fn parse_packet(bytes: Seq<u8>) -> Result<PacketModel, Error> {
    if bytes.len() == 0 {
        Err(Error::IncompletePacket)
    } else {
        match id_of_byte(bytes[0]) {
            Some(id) => Ok(PacketModel { id, data: bytes.skip(1) }),
            None => Err(Error::InvalidPacketId(bytes[0])),
        }
    }
}

impl Packet {
    /// Creates a new packet from a kind and payload bytes.
    pub fn new(packet_id: PacketId, data: Vec<u8>) -> (r: Packet)
        ensures
            r@ == (PacketModel { id: packet_id, data: data@ }),
    {
        Packet { packet_id, data }
    }

    /// Encodes this packet into its exact wire bytes.
    pub fn encode(&self) -> (r: Vec<u8>)
        ensures
            r@ == encode_packet(self@),
    {
        let mut out: Vec<u8> = Vec::new();
        out.push(self.packet_id.to_string_byte());
        out.extend_from_slice(self.data.as_slice());
        proof {
            assert(out@ =~= encode_packet(self@));
        }
        out
    }

    /// Decodes wire bytes into a packet, or reports exactly why the input
    /// is rejected.
    pub fn decode(bytes: &[u8]) -> (r: Result<Packet, Error>)
        ensures
            match r {
                Ok(p) => parse_packet(bytes@) == Ok::<PacketModel, Error>(p@),
                Err(e) => parse_packet(bytes@) == Err::<PacketModel, Error>(e),
            },
    {
        if bytes.len() == 0 {
            return Err(Error::IncompletePacket);
        }
        let id = match PacketId::try_from(bytes[0]) {
            Ok(id) => id,
            Err(e) => {
                return Err(e);
            },
        };
        let data = vstd::slice::slice_to_vec(vstd::slice::slice_subrange(bytes, 1, bytes.len()));
        proof {
            assert(data@ =~= bytes@.skip(1));
        }
        Ok(Packet { packet_id: id, data })
    }
}

/// Law: decoding an encoded engine packet gives the packet back, for every
/// packet.
pub proof fn lemma_packet_round_trip(m: PacketModel)
    ensures
        parse_packet(encode_packet(m)) == Ok::<PacketModel, Error>(m),
{
    let bytes = encode_packet(m);
    assert(bytes[0] == packet_digit(m.id));
    assert(id_of_byte(packet_digit(m.id)) == Some(m.id));
    assert(bytes.skip(1) =~= m.data);
}

} // verus!
