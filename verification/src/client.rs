//! A connected client, where it is in the authentication lifecycle, and a
//! reliable packet that waits for its acknowledgement.

use crate::rate_limiter::{fresh_model, RateLimiter, EVENT_RATE_LIMIT, POSITION_RATE_LIMIT, MAX_STRIKES};
use std::time::Instant;
use uuid::Uuid;
use vstd::prelude::*;

verus! {

/// A UDP peer address (`std::net::SocketAddr`) as plain values: the IP
/// address as a number (an IPv4 address in its low 32 bits), the port, and,
/// for IPv6, the flow label and scope id that take part in its equality.
#[derive(Debug, Clone, Copy, PartialEq, Eq, Structural, Hash)]
pub struct PeerAddr {
    pub ip: u128,
    pub port: u16,
    pub is_v6: bool,
    pub flowinfo: u32,
    pub scope_id: u32,
}

/// A reliable packet that was sent and waits for its acknowledgement.
pub struct PendingPacket {
    /// The bytes that were sent, and are resent.
    pub data: Vec<u8>,
    pub addr: PeerAddr,
    /// When it was last sent.
    pub sent_at: Instant,
    /// How many times it was resent.
    pub retries: u32,
    /// The sequence number that its acknowledgement names.
    pub seq: u32,
}

/// Where a client is in the authentication lifecycle.
pub enum ClientState {
    /// Connection received, challenge sent, waiting for the AuthResponse.
    Pending { nonce: [u8; 16], created_at: Instant },
    /// AuthResponse verified: the client is fully registered.
    Authenticated { session_key: [u8; 32] },
}

/// A client of the server.
pub struct Client {
    /// The bytes of the client's UUID.
    pub id: [u8; 16],
    pub addr: PeerAddr,
    /// Sequence number of the last packet accepted from the client.
    pub last_seq: u32,
    /// The client's x position: the bits of an IEEE-754 `f32`.
    pub x: u32,
    /// The client's y position: the bits of an IEEE-754 `f32`.
    pub y: u32,
    pub state: ClientState,
    /// Limits position reports, and every other authenticated packet that is
    /// not a game event or chat message, at `POSITION_RATE_LIMIT` per second.
    pub rate: RateLimiter,
    /// Limits game events and chat messages, at `EVENT_RATE_LIMIT` per second.
    pub event_rate: RateLimiter,
}

/// Whether a client's limiters are as the server keeps them: their limits,
/// and fewer strikes in all than get a client kicked.
pub open spec fn client_wf(c: Client) -> bool {
    &&& c.rate@.max_per_sec == POSITION_RATE_LIMIT
    &&& c.event_rate@.max_per_sec == EVENT_RATE_LIMIT
    &&& c.rate@.strikes + c.event_rate@.strikes < MAX_STRIKES
}

/// Whether the UUID bytes are those of a random (version 4, RFC 4122
/// variant) UUID.
pub open spec fn is_v4_uuid(id: [u8; 16]) -> bool {
    &&& id[6] / 16 == 4
    &&& id[8] / 64 == 2
}

/// A fresh random UUID (`Uuid::new_v4`), as its 16 bytes. The contract
/// claims only what `new_v4` fixes: the version nibble is 4 and the variant
/// bits are `10`; the other bits are chance.
#[verifier::external_body]
pub(crate) fn new_client_id() -> (id: [u8; 16])
    ensures
        is_v4_uuid(id),
{
    Uuid::new_v4().into_bytes()
}

/// A lowercase hexadecimal digit, as an ASCII byte.
pub open spec fn hex_digit(n: int) -> u8 {
    if n < 10 {
        (48 + n) as u8
    } else {
        (87 + n) as u8
    }
}

/// The lowercase hexadecimal digits of bytes, two per byte.
pub open spec fn hex_bytes(b: Seq<u8>) -> Seq<u8>
    decreases b.len(),
{
    if b.len() == 0 {
        seq![]
    } else {
        seq![hex_digit((b[0] / 16) as int), hex_digit((b[0] % 16) as int)] + hex_bytes(b.drop_first())
    }
}

/// The hyphenated lowercase text of a UUID, as ASCII bytes:
/// `xxxxxxxx-xxxx-xxxx-xxxx-xxxxxxxxxxxx`.
pub open spec fn uuid_text(id: [u8; 16]) -> Seq<u8> {
    let b = id@;
    hex_bytes(b.subrange(0, 4)) + seq![45u8] + hex_bytes(b.subrange(4, 6)) + seq![45u8]
        + hex_bytes(b.subrange(6, 8)) + seq![45u8] + hex_bytes(b.subrange(8, 10)) + seq![45u8]
        + hex_bytes(b.subrange(10, 16))
}

/// The text of a UUID (`Uuid::from_bytes`, then its `Display`, hyphenated
/// lowercase hex), as bytes. The contract claims the format that `uuid`
/// documents for it.
#[verifier::external_body]
pub(crate) fn uuid_text_bytes(id: [u8; 16]) -> (text: Vec<u8>)
    ensures
        text@ == uuid_text(id),
{
    Uuid::from_bytes(id).hyphenated().to_string().into_bytes()
}

impl Client {
    /// A client that has just asked to connect: challenged with `nonce` at
    /// `created_at`, at the origin, with fresh limiters whose clocks count
    /// from then.
    pub fn new_pending(id: [u8; 16], addr: PeerAddr, nonce: [u8; 16], created_at: Instant) -> (c:
        Client)
        ensures
            c.id == id,
            c.addr == addr,
            c.last_seq == 0,
            c.x == 0,
            c.y == 0,
            c.state == (ClientState::Pending { nonce, created_at }),
            c.rate@ == fresh_model(POSITION_RATE_LIMIT),
            c.event_rate@ == fresh_model(EVENT_RATE_LIMIT),
            c.rate.epoch() == created_at,
            c.event_rate.epoch() == created_at,
            client_wf(c),
    {
        Client {
            id,
            addr,
            last_seq: 0,
            x: 0,
            y: 0,
            state: ClientState::Pending { nonce, created_at },
            rate: RateLimiter::starting_at(POSITION_RATE_LIMIT, created_at),
            event_rate: RateLimiter::starting_at(EVENT_RATE_LIMIT, created_at),
        }
    }

    /// Packets refused so far, by both limiters.
    pub fn strikes(&self) -> (s: u8)
        requires
            client_wf(*self),
        ensures
            s == self.rate@.strikes + self.event_rate@.strikes,
    {
        self.rate.strikes() + self.event_rate.strikes()
    }
}

} // verus!
