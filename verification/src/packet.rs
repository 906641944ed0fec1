//! Packet types, flags, and the binary packet header
//! `[ type(1) | sequence_number(4) | flags(1) | payload(N) ]`.

use vstd::prelude::*;

verus! {

/// Flag value of a fire-and-forget packet.
pub const FLAG_UNRELIABLE: u8 = 0u8;

/// Flag bit of a packet that must be acknowledged.
pub const FLAG_RELIABLE: u8 = 1u8;

/// Flag value of a packet that must be acknowledged and delivered in order.
pub const FLAG_ORDERED: u8 = 3u8;

/// A reliable packet is resent every this many milliseconds until acknowledged.
pub const RETRY_INTERVAL_MS: u64 = 100u64;

/// A reliable packet is given up after this many resends.
pub const MAX_RETRIES: u32 = 5u32;

/// Length of the packet header in bytes.
pub const HEADER_LEN: usize = 6usize;

/// The kind of a packet, carried in its first byte.
#[derive(Debug, Clone, Copy, PartialEq, Eq, Structural)]
pub enum PacketType {
    /// Handshake: a client asks to register.
    Connection,
    /// Unreliable position update, fire and forget.
    PlayerPosition,
    /// Reliable game event.
    GameEvent,
    /// Reliable, ordered chat message.
    ChatMessages,
    /// World state, server to every authenticated client.
    Snapshot,
    /// Handshake: the server's nonce challenge.
    AuthChallenge,
    /// Handshake: the client's answer to the challenge.
    AuthResponse,
}

/// The byte that stands for a packet type on the wire.
pub open spec fn type_code(t: PacketType) -> u8 {
    match t {
        PacketType::Connection => 0,
        PacketType::PlayerPosition => 1,
        PacketType::GameEvent => 2,
        PacketType::ChatMessages => 3,
        PacketType::Snapshot => 4,
        PacketType::AuthChallenge => 5,
        PacketType::AuthResponse => 6,
    }
}

/// The packet type a wire byte stands for, if any.
pub open spec fn type_of_code(b: u8) -> Option<PacketType> {
    if b == 0 {
        Some(PacketType::Connection)
    } else if b == 1 {
        Some(PacketType::PlayerPosition)
    } else if b == 2 {
        Some(PacketType::GameEvent)
    } else if b == 3 {
        Some(PacketType::ChatMessages)
    } else if b == 4 {
        Some(PacketType::Snapshot)
    } else if b == 5 {
        Some(PacketType::AuthChallenge)
    } else if b == 6 {
        Some(PacketType::AuthResponse)
    } else {
        None
    }
}

/// The delivery flags that the receiver assigns to each packet type.
pub open spec fn canonical_flags(t: PacketType) -> u8 {
    match t {
        PacketType::GameEvent => FLAG_RELIABLE,
        PacketType::ChatMessages => FLAG_ORDERED,
        _ => FLAG_UNRELIABLE,
    }
}

/// The wire byte of a packet type.
pub fn packet_type_code(t: PacketType) -> (b: u8)
    ensures
        b == type_code(t),
{
    match t {
        PacketType::Connection => 0,
        PacketType::PlayerPosition => 1,
        PacketType::GameEvent => 2,
        PacketType::ChatMessages => 3,
        PacketType::Snapshot => 4,
        PacketType::AuthChallenge => 5,
        PacketType::AuthResponse => 6,
    }
}

/// The big-endian encoding of a `u32`.
pub open spec fn be_u32_bytes(v: u32) -> Seq<u8> {
    seq![(v >> 24) as u8, ((v >> 16) & 0xff) as u8, ((v >> 8) & 0xff) as u8, (v & 0xff) as u8]
}

/// The `u32` that four big-endian bytes encode.
pub open spec fn be_u32_value(b0: u8, b1: u8, b2: u8, b3: u8) -> u32 {
    ((b0 as u32) << 24) | ((b1 as u32) << 16) | ((b2 as u32) << 8) | (b3 as u32)
}

/// The big-endian encoding of a `u64`.
pub open spec fn be_u64_bytes(v: u64) -> Seq<u8> {
    seq![
        (v >> 56) as u8,
        ((v >> 48) & 0xff) as u8,
        ((v >> 40) & 0xff) as u8,
        ((v >> 32) & 0xff) as u8,
        ((v >> 24) & 0xff) as u8,
        ((v >> 16) & 0xff) as u8,
        ((v >> 8) & 0xff) as u8,
        (v & 0xff) as u8,
    ]
}

/// Decoding the big-endian bytes of a `u32` gives the value back.
pub proof fn lemma_be_u32_value_of_bytes(v: u32)
    ensures
        be_u32_value(
            be_u32_bytes(v)[0],
            be_u32_bytes(v)[1],
            be_u32_bytes(v)[2],
            be_u32_bytes(v)[3],
        ) == v,
{
    let b0 = (v >> 24) as u8;
    let b1 = ((v >> 16) & 0xff) as u8;
    let b2 = ((v >> 8) & 0xff) as u8;
    let b3 = (v & 0xff) as u8;
    assert(((b0 as u32) << 24) | ((b1 as u32) << 16) | ((b2 as u32) << 8) | (b3 as u32) == v)
        by (bit_vector)
        requires
            b0 == (v >> 24) as u8,
            b1 == ((v >> 16) & 0xff) as u8,
            b2 == ((v >> 8) & 0xff) as u8,
            b3 == (v & 0xff) as u8,
    ;
}

/// Encoding the `u32` that four bytes decode to gives the bytes back.
pub proof fn lemma_be_u32_bytes_of_value(b0: u8, b1: u8, b2: u8, b3: u8)
    ensures
        be_u32_bytes(be_u32_value(b0, b1, b2, b3)) == seq![b0, b1, b2, b3],
{
    let v = be_u32_value(b0, b1, b2, b3);
    assert((v >> 24) as u8 == b0 && ((v >> 16) & 0xff) as u8 == b1 && ((v >> 8) & 0xff) as u8
        == b2 && (v & 0xff) as u8 == b3) by (bit_vector)
        requires
            v == ((b0 as u32) << 24) | ((b1 as u32) << 16) | ((b2 as u32) << 8) | (b3 as u32),
    ;
    assert(be_u32_bytes(v) =~= seq![b0, b1, b2, b3]);
}

/// Appends the big-endian bytes of `v` to `out`.
pub fn push_be_u32(out: &mut Vec<u8>, v: u32)
    ensures
        final(out)@ == old(out)@ + be_u32_bytes(v),
{
    out.push((v >> 24) as u8);
    out.push(((v >> 16) & 0xff) as u8);
    out.push(((v >> 8) & 0xff) as u8);
    out.push((v & 0xff) as u8);
    assert(out@ =~= old(out)@ + be_u32_bytes(v));
}

/// Appends the big-endian bytes of `v` to `out`.
pub fn push_be_u64(out: &mut Vec<u8>, v: u64)
    ensures
        final(out)@ == old(out)@ + be_u64_bytes(v),
{
    out.push((v >> 56) as u8);
    out.push(((v >> 48) & 0xff) as u8);
    out.push(((v >> 40) & 0xff) as u8);
    out.push(((v >> 32) & 0xff) as u8);
    out.push(((v >> 24) & 0xff) as u8);
    out.push(((v >> 16) & 0xff) as u8);
    out.push(((v >> 8) & 0xff) as u8);
    out.push((v & 0xff) as u8);
    assert(out@ =~= old(out)@ + be_u64_bytes(v));
}

/// The mathematical content of a packet.
pub struct PacketModel {
    pub packet_type: PacketType,
    pub sequence_number: u32,
    pub flags: u8,
    pub payload: Seq<u8>,
}

/// A packet: header fields and payload.
pub struct Packet {
    pub packet_type: PacketType,
    pub sequence_number: u32,
    pub flags: u8,
    pub payload: Vec<u8>,
}

impl View for Packet {
    type V = PacketModel;

    open spec fn view(&self) -> PacketModel {
        PacketModel {
            packet_type: self.packet_type,
            sequence_number: self.sequence_number,
            flags: self.flags,
            payload: self.payload@,
        }
    }
}

/// The bytes that stand for a packet on the wire.
pub open spec fn wire_bytes(p: PacketModel) -> Seq<u8> {
    seq![type_code(p.packet_type)] + be_u32_bytes(p.sequence_number) + seq![p.flags] + p.payload
}

/// The packet that wire bytes stand for, if they form one: a full header with a
/// known type byte. The flags are those of the packet type, whatever the flags
/// byte holds; the payload is everything after the header.
pub open spec fn parse_wire(data: Seq<u8>) -> Option<PacketModel> {
    if data.len() < HEADER_LEN {
        None
    } else {
        match type_of_code(data[0]) {
            None => None,
            Some(t) => Some(
                PacketModel {
                    packet_type: t,
                    sequence_number: be_u32_value(data[1], data[2], data[3], data[4]),
                    flags: canonical_flags(t),
                    payload: data.skip(HEADER_LEN as int),
                },
            ),
        }
    }
}

/// Whether a flags byte asks for acknowledgement.
pub open spec fn flags_reliable(flags: u8) -> bool {
    flags % 2 == 1
}

/// The model of an optional packet.
pub open spec fn option_packet_view(p: Option<Packet>) -> Option<PacketModel> {
    match p {
        Some(p) => Some(p@),
        None => None,
    }
}


/// Every packet type's wire byte reads back as that type.
pub proof fn lemma_type_code_roundtrip(t: PacketType)
    ensures
        type_of_code(type_code(t)) == Some(t),
{
}

/// Encoding a packet whose flags are those of its type, then parsing the
/// bytes, gives the same packet back.
pub proof fn lemma_parse_encoded(p: PacketModel)
    requires
        p.flags == canonical_flags(p.packet_type),
    ensures
        parse_wire(wire_bytes(p)) == Some(p),
{
    let w = wire_bytes(p);
    let b = be_u32_bytes(p.sequence_number);
    lemma_be_u32_value_of_bytes(p.sequence_number);
    assert(w[1] == b[0] && w[2] == b[1] && w[3] == b[2] && w[4] == b[3]);
    assert(w.skip(HEADER_LEN as int) =~= p.payload);
}

/// Bytes that parse as a packet are that packet's encoding, but for the flags
/// byte, which the parser does not read.
pub proof fn lemma_encode_parsed(data: Seq<u8>)
    requires
        parse_wire(data) is Some,
    ensures
        wire_bytes(PacketModel { flags: data[5], ..parse_wire(data).unwrap() }) == data,
{
    let m = parse_wire(data).unwrap();
    lemma_be_u32_bytes_of_value(data[1], data[2], data[3], data[4]);
    let t = m.packet_type;
    assert(type_code(t) == data[0]);
    assert(wire_bytes(PacketModel { flags: data[5], ..m }) =~= data);
}

/// Of the packets that the parser yields, exactly game events and chat
/// messages must be acknowledged.
pub proof fn lemma_reliable_types(t: PacketType)
    ensures
        flags_reliable(canonical_flags(t)) <==> (t == PacketType::GameEvent || t
            == PacketType::ChatMessages),
{
}

impl Packet {
    /// Builds a packet out of raw bytes from the wire; `None` when the bytes
    /// are shorter than a header or the type byte is unknown.
    pub fn from_bytes(data: &[u8]) -> (r: Option<Packet>)
        ensures
            option_packet_view(r) == parse_wire(data@),
    {
        if data.len() < HEADER_LEN {
            return None;
        }
        let packet_type = match data[0] {
            0 => PacketType::Connection,
            1 => PacketType::PlayerPosition,
            2 => PacketType::GameEvent,
            3 => PacketType::ChatMessages,
            4 => PacketType::Snapshot,
            5 => PacketType::AuthChallenge,
            6 => PacketType::AuthResponse,
            _ => return None,
        };
        let flags = match packet_type {
            PacketType::GameEvent => FLAG_RELIABLE,
            PacketType::ChatMessages => FLAG_ORDERED,
            _ => FLAG_UNRELIABLE,
        };
        let sequence_number = ((data[1] as u32) << 24) | ((data[2] as u32) << 16) | ((data[3] as u32)
            << 8) | (data[4] as u32);
        let payload = vstd::slice::slice_to_vec(vstd::slice::slice_subrange(data, HEADER_LEN, data.len()));
        Some(Packet { packet_type, sequence_number, flags, payload })
    }

    /// The bytes that stand for this packet on the wire.
    pub fn to_bytes(&self) -> (bytes: Vec<u8>)
        ensures
            bytes@ == wire_bytes(self@),
    {
        let mut bytes: Vec<u8> = Vec::new();
        bytes.push(packet_type_code(self.packet_type));
        push_be_u32(&mut bytes, self.sequence_number);
        bytes.push(self.flags);
        bytes.extend_from_slice(self.payload.as_slice());
        assert(bytes@ =~= wire_bytes(self@));
        bytes
    }

    /// Whether the packet must be acknowledged: its reliable flag bit is set.
    pub fn is_reliable(&self) -> (r: bool)
        ensures
            r == flags_reliable(self.flags),
    {
        let f = self.flags;
        assert((f & 1u8 != 0) == (f % 2 == 1)) by (bit_vector);
        f & FLAG_RELIABLE != 0
    }
}

} // verus!
