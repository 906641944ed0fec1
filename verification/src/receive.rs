//! What the server does with one incoming datagram: acknowledgements, the
//! challenge-response handshake, and authenticated game packets.

use crate::ack::{ack_chars, ack_of, ack_text, lemma_ack_roundtrip, parse_ack, AckParse};
use crate::auth::{
    derive_session_key, generate_nonce, hmac_sha256, lemma_verified_iff_signed, lemma_verify_signed,
    option_bytes_view,
    signed_bytes, verified_payload, verify_and_strip, HMAC_LEN,
};
use crate::client::{
    client_wf, is_v4_uuid, new_client_id, uuid_text, uuid_text_bytes, Client, ClientState, PeerAddr,
    PendingPacket,
};
use crate::clock::instant_now;
use crate::packet::{
    canonical_flags, flags_reliable, lemma_parse_encoded, parse_wire, wire_bytes, Packet,
    PacketModel, PacketType, FLAG_RELIABLE, FLAG_UNRELIABLE,
};
use crate::rate_limiter::{
    fresh_model, rate_step, RateLimiter, EVENT_RATE_LIMIT, MAX_STRIKES, POSITION_RATE_LIMIT,
};
use crate::server::{
    addrs_distinct, clients_wf, index_of_addr, lemma_index_of_addr, position_of, seqs_distinct,
    without_seq, ServerState,
};
use std::time::Instant;
use vstd::prelude::*;
use vstd::utf8::encode_utf8;

verus! {

/// The sequence number of the welcome packet.
pub const WELCOME_SEQ: u32 = 1u32;

/// What the server makes of a datagram, for its event log.
pub enum ServerEvent {
    /// An acknowledgement, with the sequence number it names if it is one.
    Acknowledged { seq: Option<u32> },
    /// Something other than a Connection from an unknown peer: dropped.
    DroppedFromUnknown,
    /// A Connection from an unknown peer: challenged.
    Challenged,
    /// A repeated Connection from a pending client: challenged again.
    ChallengeRepeated,
    /// Something other than an AuthResponse from a pending client: dropped.
    DroppedFromPending,
    /// A wrong AuthResponse: the client is evicted.
    AuthFailed,
    /// A right AuthResponse: the client, with this UUID, is authenticated.
    Authenticated { id: [u8; 16] },
    /// A packet whose tag does not verify: dropped.
    TagRejected,
    /// A packet over a rate limit: a strike, and a kick at `MAX_STRIKES`.
    RateLimited { strikes: u8, kicked: bool },
    /// A packet with a valid tag that does not parse: dropped.
    Malformed,
    /// A packet numbered no higher than the last accepted one: dropped.
    Replayed { sequence_number: u32 },
    /// A position report.
    PositionReported,
    /// A game event or chat message, with its payload.
    Message { payload: Vec<u8> },
    /// Another kind of packet, accepted and otherwise ignored.
    Ignored,
}

/// What the server answers to a datagram (to its sender), and what happened.
pub struct Outcome {
    pub reply: Option<Vec<u8>>,
    pub event: ServerEvent,
}

/// What handling a datagram takes from the random generator and the clocks:
/// a nonce and a UUID for a new client, the current instant, and the time on
/// the clock of each limiter of the sender.
#[derive(Clone, Copy)]
pub struct Fresh {
    pub nonce: [u8; 16],
    pub id: [u8; 16],
    pub now: Instant,
    /// The time on the clock of the sender's position limiter.
    pub rate_now: u128,
    /// The time on the clock of the sender's event limiter.
    pub event_now: u128,
}

/// The bytes of `Welcome! Your ID is `.
pub open spec fn welcome_prefix() -> Seq<u8> {
    seq![87u8, 101, 108, 99, 111, 109, 101, 33, 32, 89, 111, 117, 114, 32, 73, 68, 32, 105, 115, 32]
}

/// The challenge a client gets: its nonce in an AuthChallenge.
pub open spec fn challenge_bytes(nonce: [u8; 16]) -> Seq<u8> {
    wire_bytes(
        PacketModel {
            packet_type: PacketType::AuthChallenge,
            sequence_number: 0,
            flags: FLAG_UNRELIABLE,
            payload: nonce@,
        },
    )
}

/// The welcome a client gets once authenticated: a reliable GameEvent
/// `Welcome! Your ID is <uuid>`.
pub open spec fn welcome_bytes(id: [u8; 16]) -> Seq<u8> {
    wire_bytes(
        PacketModel {
            packet_type: PacketType::GameEvent,
            sequence_number: WELCOME_SEQ,
            flags: FLAG_RELIABLE,
            payload: welcome_prefix() + uuid_text(id),
        },
    )
}

/// The acknowledgement of packet `seq`, as bytes.
pub open spec fn ack_bytes(seq: u32) -> Seq<u8> {
    encode_utf8(ack_chars(seq))
}

/// Whether a limiter is `l` after counting one packet at time `now` on its
/// clock.
pub open spec fn limiter_after(l: RateLimiter, l2: RateLimiter, now: u128) -> bool {
    &&& l2@ == rate_step(l@, now).1
    &&& l2.epoch() == l.epoch()
}

/// Whether `c2` is `c` after a packet was counted by its position limiter
/// (when `position_counted`) or its event limiter (when `event_counted`),
/// with the given last sequence number and position.
pub open spec fn client_after(
    c: Client,
    c2: Client,
    f: Fresh,
    position_counted: bool,
    event_counted: bool,
    last_seq: u32,
    x: u32,
    y: u32,
) -> bool {
    &&& c2.id == c.id
    &&& c2.addr == c.addr
    &&& c2.state == c.state
    &&& c2.last_seq == last_seq
    &&& c2.x == x
    &&& c2.y == y
    &&& if position_counted {
        limiter_after(c.rate, c2.rate, f.rate_now)
    } else {
        c2.rate == c.rate
    }
    &&& if event_counted {
        limiter_after(c.event_rate, c2.event_rate, f.event_now)
    } else {
        c2.event_rate == c.event_rate
    }
}

/// Whether the clients are `cs` with the one at `i` replaced by some client.
pub open spec fn replaced_at(cs: Seq<Client>, cs2: Seq<Client>, i: int) -> bool {
    &&& cs2.len() == cs.len()
    &&& forall|j: int| 0 <= j < cs.len() && j != i ==> cs2[j] == cs[j]
}

/// A datagram from an unknown peer: a Connection adds a pending client with
/// the fresh nonce and UUID, and is answered with the challenge; anything else
/// is dropped.
pub open spec fn unknown_step(old: ServerState, new: ServerState, raw: Seq<u8>, from: PeerAddr, f: Fresh, out: Outcome) -> bool {
    &&& new.pending@ == old.pending@
    &&& if parse_wire(raw) matches Some(p) && p.packet_type == PacketType::Connection {
        &&& new.clients@.len() == old.clients@.len() + 1
        &&& new.clients@.drop_last() == old.clients@
        &&& new.clients@.last().id == f.id
        &&& new.clients@.last().addr == from
        &&& new.clients@.last().last_seq == 0
        &&& new.clients@.last().x == 0
        &&& new.clients@.last().y == 0
        &&& new.clients@.last().state == (ClientState::Pending { nonce: f.nonce, created_at: f.now })
        &&& new.clients@.last().rate@ == fresh_model(POSITION_RATE_LIMIT)
        &&& new.clients@.last().event_rate@ == fresh_model(EVENT_RATE_LIMIT)
        &&& new.clients@.last().rate.epoch() == f.now
        &&& new.clients@.last().event_rate.epoch() == f.now
        &&& option_bytes_view(out.reply) == Some(challenge_bytes(f.nonce))
        &&& out.event == ServerEvent::Challenged
    } else {
        &&& new.clients@ == old.clients@
        &&& out.reply is None
        &&& out.event == ServerEvent::DroppedFromUnknown
    }
}

/// A datagram from the pending client at `i`, challenged with `nonce`: the
/// right AuthResponse (the session key, HMAC-SHA256 of the nonce under the
/// shared secret) authenticates it with that key and is answered with the
/// welcome, which waits for its acknowledgement in place of any other packet
/// numbered like it; a wrong one evicts it; a repeated Connection is answered
/// with the same challenge; anything else is dropped.
pub open spec fn pending_step(
    old: ServerState,
    new: ServerState,
    i: int,
    nonce: [u8; 16],
    raw: Seq<u8>,
    secret: Seq<u8>,
    f: Fresh,
    out: Outcome,
) -> bool {
    let c = old.clients@[i];
    let key = hmac_sha256(secret, nonce@);
    match parse_wire(raw) {
        Some(p) => if p.packet_type == PacketType::AuthResponse {
            if p.payload == key@ {
                &&& new.clients@ == old.clients@.update(
                    i,
                    Client { state: ClientState::Authenticated { session_key: key }, ..c },
                )
                &&& new.pending@.drop_last() == without_seq(old.pending@, WELCOME_SEQ)
                &&& new.pending@.len() > 0
                &&& new.pending@.last().data@ == welcome_bytes(c.id)
                &&& new.pending@.last().addr == c.addr
                &&& new.pending@.last().sent_at == f.now
                &&& new.pending@.last().retries == 0
                &&& new.pending@.last().seq == WELCOME_SEQ
                &&& option_bytes_view(out.reply) == Some(welcome_bytes(c.id))
                &&& out.event == ServerEvent::Authenticated { id: c.id }
            } else {
                &&& new.clients@ == old.clients@.remove(i)
                &&& new.pending@ == old.pending@
                &&& out.reply is None
                &&& out.event == ServerEvent::AuthFailed
            }
        } else if p.packet_type == PacketType::Connection {
            &&& new.clients@ == old.clients@
            &&& new.pending@ == old.pending@
            &&& option_bytes_view(out.reply) == Some(challenge_bytes(nonce))
            &&& out.event == ServerEvent::ChallengeRepeated
        } else {
            &&& new.clients@ == old.clients@
            &&& new.pending@ == old.pending@
            &&& out.reply is None
            &&& out.event == ServerEvent::DroppedFromPending
        },
        None => {
            &&& new.clients@ == old.clients@
            &&& new.pending@ == old.pending@
            &&& out.reply is None
            &&& out.event == ServerEvent::DroppedFromPending
        },
    }
}

/// A refused packet: strikes in all after the refusal, and a kick at
/// `MAX_STRIKES`; otherwise the client stays with its limiter counted.
pub open spec fn refused(
    old: ServerState,
    new: ServerState,
    i: int,
    f: Fresh,
    position_counted: bool,
    event_counted: bool,
    strikes: nat,
    out: Outcome,
) -> bool {
    let c = old.clients@[i];
    &&& new.pending@ == old.pending@
    &&& out.reply is None
    &&& out.event == (ServerEvent::RateLimited { strikes: strikes as u8, kicked: strikes >= MAX_STRIKES })
    &&& if strikes >= MAX_STRIKES {
        new.clients@ == old.clients@.remove(i)
    } else {
        &&& replaced_at(old.clients@, new.clients@, i)
        &&& client_after(c, new.clients@[i], f, position_counted, event_counted, c.last_seq, c.x, c.y)
    }
}

/// Whether a verified packet body is a game event or chat message: those
/// are counted by the event limiter, every other body by the position
/// limiter.
pub open spec fn is_event_body(body: Seq<u8>) -> bool {
    parse_wire(body) matches Some(p) && (p.packet_type == PacketType::GameEvent || p.packet_type
        == PacketType::ChatMessages)
}

/// A datagram from the authenticated client at `i`, holding `key`: dropped
/// unless its trailing tag verifies. Every packet whose tag verifies is then
/// counted: a game event or chat message by the client's event limiter, any
/// other by its position limiter, each over the sliding one-second window
/// that ends at the time on its clock. Over the limit it costs a strike, and
/// a kick at `MAX_STRIKES` strikes in all. A counted packet is then parsed
/// (malformed: dropped), and dropped unless its sequence number is higher
/// than the last accepted one. An accepted packet is acknowledged when
/// reliable, becomes the last accepted one, and is dispatched: a position
/// report moves the player, an event or message is logged.
pub open spec fn authenticated_step(
    old: ServerState,
    new: ServerState,
    i: int,
    key: [u8; 32],
    raw: Seq<u8>,
    f: Fresh,
    out: Outcome,
) -> bool {
    let c = old.clients@[i];
    match verified_payload(key@, raw) {
        None => {
            &&& new.clients@ == old.clients@
            &&& new.pending@ == old.pending@
            &&& out.reply is None
            &&& out.event == ServerEvent::TagRejected
        },
        Some(body) => {
            let is_event = is_event_body(body);
            let (ok, r) = if is_event {
                rate_step(c.event_rate@, f.event_now)
            } else {
                rate_step(c.rate@, f.rate_now)
            };
            if !ok {
                refused(
                    old,
                    new,
                    i,
                    f,
                    !is_event,
                    is_event,
                    if is_event {
                        c.rate@.strikes + r.strikes
                    } else {
                        r.strikes + c.event_rate@.strikes
                    },
                    out,
                )
            } else {
                &&& new.pending@ == old.pending@
                &&& replaced_at(old.clients@, new.clients@, i)
                &&& match parse_wire(body) {
                    None => {
                        &&& client_after(c, new.clients@[i], f, true, false, c.last_seq, c.x, c.y)
                        &&& out.reply is None
                        &&& out.event == ServerEvent::Malformed
                    },
                    Some(p) => if p.sequence_number <= c.last_seq {
                        &&& client_after(
                            c,
                            new.clients@[i],
                            f,
                            !is_event,
                            is_event,
                            c.last_seq,
                            c.x,
                            c.y,
                        )
                        &&& out.reply is None
                        &&& out.event == ServerEvent::Replayed { sequence_number: p.sequence_number }
                    } else {
                        let is_position = p.packet_type == PacketType::PlayerPosition;
                        let (x, y) = if is_position && position_of(p.payload) is Some {
                            position_of(p.payload).unwrap()
                        } else {
                            (c.x, c.y)
                        };
                        &&& client_after(
                            c,
                            new.clients@[i],
                            f,
                            !is_event,
                            is_event,
                            p.sequence_number,
                            x,
                            y,
                        )
                        &&& option_bytes_view(out.reply) == if flags_reliable(p.flags) {
                            Some(ack_bytes(p.sequence_number))
                        } else {
                            None
                        }
                        &&& if is_event {
                            out.event matches ServerEvent::Message { payload } && payload@
                                == p.payload
                        } else if is_position {
                            out.event == ServerEvent::PositionReported
                        } else {
                            out.event == ServerEvent::Ignored
                        }
                    },
                }
            }
        },
    }
}

/// One datagram `raw` from `from`, handled with the fresh values `f`: an
/// acknowledgement forgets the packet it names; otherwise the datagram goes
/// to the unknown, pending or authenticated step of its sender.
pub open spec fn handled(
    old: ServerState,
    new: ServerState,
    raw: Seq<u8>,
    from: PeerAddr,
    secret: Seq<u8>,
    f: Fresh,
    out: Outcome,
) -> bool {
    match ack_of(raw) {
        AckParse::Ack(seq) => {
            &&& new.clients@ == old.clients@
            &&& new.pending@ == match seq {
                Some(s) => without_seq(old.pending@, s),
                None => old.pending@,
            }
            &&& out.reply is None
            &&& out.event == ServerEvent::Acknowledged { seq }
        },
        AckParse::NotAck => match index_of_addr(old.clients@, from) {
            None => unknown_step(old, new, raw, from, f, out),
            Some(i) => match old.clients@[i].state {
                ClientState::Pending { nonce, .. } => pending_step(
                    old,
                    new,
                    i,
                    nonce,
                    raw,
                    secret,
                    f,
                    out,
                ),
                ClientState::Authenticated { session_key } => authenticated_step(
                    old,
                    new,
                    i,
                    session_key,
                    raw,
                    f,
                    out,
                ),
            },
        },
    }
}

/// Whether two byte strings are equal.
fn bytes_eq(a: &[u8], b: &[u8]) -> (r: bool)
    ensures
        r == (a@ == b@),
{
    if a.len() != b.len() {
        return false;
    }
    let mut i: usize = 0;
    while i < a.len()
        invariant
            a@.len() == b@.len(),
            i <= a@.len(),
            forall|j: int| 0 <= j < i ==> a@[j] == b@[j],
        decreases a@.len() - i,
    {
        if a[i] != b[i] {
            return false;
        }
        i = i + 1;
    }
    assert(a@ =~= b@);
    true
}

/// The challenge for `nonce`, as bytes.
fn challenge(nonce: &[u8; 16]) -> (bytes: Vec<u8>)
    ensures
        bytes@ == challenge_bytes(*nonce),
{
    let p = Packet {
        packet_type: PacketType::AuthChallenge,
        sequence_number: 0,
        flags: FLAG_UNRELIABLE,
        payload: vstd::slice::slice_to_vec(nonce.as_slice()),
    };
    p.to_bytes()
}

/// The welcome for the client with UUID `id`, as bytes.
fn welcome(id: [u8; 16]) -> (bytes: Vec<u8>)
    ensures
        bytes@ == welcome_bytes(id),
{
    let prefix: [u8; 20] = [87u8, 101, 108, 99, 111, 109, 101, 33, 32, 89, 111, 117, 114, 32, 73,
        68, 32, 105, 115, 32];
    let mut payload = vstd::slice::slice_to_vec(prefix.as_slice());
    let text = uuid_text_bytes(id);
    payload.extend_from_slice(text.as_slice());
    assert(payload@ =~= welcome_prefix() + uuid_text(id));
    let p = Packet {
        packet_type: PacketType::GameEvent,
        sequence_number: WELCOME_SEQ,
        flags: FLAG_RELIABLE,
        payload,
    };
    p.to_bytes()
}

/// The acknowledgement of packet `seq`, as bytes.
fn ack(seq: u32) -> (bytes: Vec<u8>)
    ensures
        bytes@ == ack_bytes(seq),
{
    let text = ack_text(seq);
    vstd::slice::slice_to_vec(text.as_str().as_bytes())
}

impl ServerState {
    /// Handles a datagram from a peer that is not a client.
    pub fn on_unknown(&mut self, raw: &[u8], from: PeerAddr, f: Fresh) -> (out: Outcome)
        requires
            old(self).wf(),
            index_of_addr(old(self).clients@, from) is None,
        ensures
            final(self).wf(),
            unknown_step(*old(self), *final(self), raw@, from, f, out),
    {
        match Packet::from_bytes(raw) {
            Some(p) => {
                if p.packet_type == PacketType::Connection {
                    let reply = challenge(&f.nonce);
                    let c = Client::new_pending(f.id, from, f.nonce, f.now);
                    self.clients.push(c);
                    proof {
                        let cs = self.clients@;
                        assert(cs.drop_last() =~= old(self).clients@);
                        assert forall|a: int, b: int| 0 <= a < b < cs.len() implies cs[a].addr
                            != cs[b].addr by {
                            if b == cs.len() - 1 {
                                assert(old(self).clients@[a].addr != from);
                            }
                        }
                        assert forall|j: int| 0 <= j < cs.len() implies client_wf(
                            #[trigger] cs[j],
                        ) by {
                            if j < cs.len() - 1 {
                                assert(client_wf(old(self).clients@[j]));
                            }
                        }
                    }
                    return Outcome { reply: Some(reply), event: ServerEvent::Challenged };
                }
            },
            None => {},
        }
        Outcome { reply: None, event: ServerEvent::DroppedFromUnknown }
    }

    /// Handles a datagram from the pending client at `i`, challenged with
    /// `nonce`.
    pub fn on_pending(
        &mut self,
        i: usize,
        nonce: [u8; 16],
        raw: &[u8],
        secret: &[u8],
        f: Fresh,
    ) -> (out: Outcome)
        requires
            old(self).wf(),
            i < old(self).clients@.len(),
            old(self).clients@[i as int].state matches ClientState::Pending { nonce: n, .. } && n
                == nonce,
        ensures
            final(self).wf(),
            pending_step(*old(self), *final(self), i as int, nonce, raw@, secret@, f, out),
    {
        let p = match Packet::from_bytes(raw) {
            Some(p) => p,
            None => return Outcome { reply: None, event: ServerEvent::DroppedFromPending },
        };
        if p.packet_type == PacketType::Connection {
            return Outcome { reply: Some(challenge(&nonce)), event: ServerEvent::ChallengeRepeated };
        }
        if p.packet_type != PacketType::AuthResponse {
            return Outcome { reply: None, event: ServerEvent::DroppedFromPending };
        }
        let expected = derive_session_key(secret, nonce.as_slice());
        if p.payload.len() != HMAC_LEN || !bytes_eq(p.payload.as_slice(), expected.as_slice()) {
            proof {
                lemma_remove_client_wf(self.clients@, i as int);
            }
            self.clients.remove(i);
            return Outcome { reply: None, event: ServerEvent::AuthFailed };
        }
        let mut c = self.clients.remove(i);
        c.state = ClientState::Authenticated { session_key: expected };
        let id = c.id;
        let addr = c.addr;
        self.clients.insert(i, c);
        proof {
            let cs = self.clients@;
            let ocs = old(self).clients@;
            assert(cs =~= ocs.update(
                i as int,
                Client { state: ClientState::Authenticated { session_key: expected }, ..ocs[i as int] },
            ));
            assert forall|a: int, b: int| 0 <= a < b < cs.len() implies cs[a].addr != cs[b].addr by {
                assert(cs[a].addr == ocs[a].addr && cs[b].addr == ocs[b].addr);
            }
            assert forall|j: int| 0 <= j < cs.len() implies client_wf(#[trigger] cs[j]) by {
                assert(client_wf(ocs[j]));
            }
        }
        let bytes = welcome(id);
        self.acknowledge(WELCOME_SEQ);
        let data = vstd::slice::slice_to_vec(bytes.as_slice());
        self.pending.push(
            PendingPacket { data, addr, sent_at: f.now, retries: 0, seq: WELCOME_SEQ },
        );
        proof {
            let ps = self.pending@;
            assert(ps.drop_last() =~= without_seq(old(self).pending@, WELCOME_SEQ));
            assert forall|a: int, b: int| 0 <= a < b < ps.len() implies ps[a].seq != ps[b].seq by {
                if b == ps.len() - 1 {
                    assert(ps[a] == ps.drop_last()[a]);
                }
            }
        }
        Outcome { reply: Some(bytes), event: ServerEvent::Authenticated { id } }
    }
}

/// Removing a client keeps the clients' addresses distinct and well formed.
proof fn lemma_remove_client_wf(cs: Seq<Client>, i: int)
    requires
        addrs_distinct(cs),
        clients_wf(cs),
        0 <= i < cs.len(),
    ensures
        addrs_distinct(cs.remove(i)),
        clients_wf(cs.remove(i)),
{
    let r = cs.remove(i);
    assert forall|a: int, b: int| 0 <= a < b < r.len() implies r[a].addr != r[b].addr by {
        let a2 = if a < i { a } else { a + 1 };
        let b2 = if b < i { b } else { b + 1 };
        assert(r[a] == cs[a2] && r[b] == cs[b2]);
    }
    assert forall|j: int| 0 <= j < r.len() implies client_wf(#[trigger] r[j]) by {
        let j2 = if j < i { j } else { j + 1 };
        assert(r[j] == cs[j2]);
    }
}

/// A client's limiters after counting one packet keep it well formed, as long
/// as it is not over the strikes that get it kicked.
proof fn lemma_client_after_wf(
    c: Client,
    c2: Client,
    f: Fresh,
    position_counted: bool,
    event_counted: bool,
    last_seq: u32,
    x: u32,
    y: u32,
)
    requires
        client_wf(c),
        client_after(c, c2, f, position_counted, event_counted, last_seq, x, y),
        c2.rate@.strikes + c2.event_rate@.strikes < MAX_STRIKES,
    ensures
        client_wf(c2),
{
}

impl ServerState {
    /// Puts `c` back at `i` in place of the client that was there, which had
    /// the same address.
    fn put_back(&mut self, i: usize, c: Client)
        requires
            i <= old(self).clients@.len(),
            client_wf(c),
            addrs_distinct(old(self).clients@.insert(i as int, c)),
            clients_wf(old(self).clients@),
            seqs_distinct(old(self).pending@),
        ensures
            final(self).clients@ == old(self).clients@.insert(i as int, c),
            final(self).pending@ == old(self).pending@,
            final(self).wf(),
    {
        self.clients.insert(i, c);
        proof {
            let cs = self.clients@;
            assert forall|j: int| 0 <= j < cs.len() implies client_wf(#[trigger] cs[j]) by {
                if j < i {
                    assert(cs[j] == old(self).clients@[j]);
                } else if j > i {
                    assert(cs[j] == old(self).clients@[j - 1]);
                }
            }
        }
    }

    /// Handles a datagram from the authenticated client at `i`, which holds
    /// `key`.
    pub fn on_authenticated(&mut self, i: usize, key: [u8; 32], raw: &[u8], f: Fresh) -> (out:
        Outcome)
        requires
            old(self).wf(),
            i < old(self).clients@.len(),
            old(self).clients@[i as int].state == (ClientState::Authenticated { session_key: key }),
        ensures
            final(self).wf(),
            authenticated_step(*old(self), *final(self), i as int, key, raw@, f, out),
    {
        let ghost ocs = self.clients@;
        let ghost oc = ocs[i as int];
        let body = match verify_and_strip(key.as_slice(), raw) {
            Some(b) => b,
            None => return Outcome { reply: None, event: ServerEvent::TagRejected },
        };
        let parsed = Packet::from_bytes(body.as_slice());
        let is_event = match &parsed {
            Some(p) => p.packet_type == PacketType::GameEvent || p.packet_type
                == PacketType::ChatMessages,
            None => false,
        };
        proof {
            lemma_remove_client_wf(ocs, i as int);
            assert(client_wf(oc));
            assert forall|j: int| 0 <= j < ocs.remove(i as int).len() implies ocs.remove(
                i as int,
            )[j].addr != oc.addr by {
                let j2 = if j < i { j } else { j + 1 };
                assert(ocs.remove(i as int)[j] == ocs[j2]);
            }
        }
        let mut c = self.clients.remove(i);
        let ok = if is_event {
            c.event_rate.count_packet(f.event_now)
        } else {
            c.rate.count_packet(f.rate_now)
        };
        if !ok {
            let strikes = c.rate.strikes() + c.event_rate.strikes();
            if strikes >= MAX_STRIKES {
                return Outcome {
                    reply: None,
                    event: ServerEvent::RateLimited { strikes, kicked: true },
                };
            }
            proof {
                lemma_client_after_wf(oc, c, f, !is_event, is_event, oc.last_seq, oc.x, oc.y);
                assert(ocs.remove(i as int).insert(i as int, c) =~= ocs.update(i as int, c));
            }
            self.put_back(i, c);
            return Outcome { reply: None, event: ServerEvent::RateLimited { strikes, kicked: false } };
        }
        proof {
            lemma_client_after_wf(oc, c, f, !is_event, is_event, oc.last_seq, oc.x, oc.y);
            assert(ocs.remove(i as int).insert(i as int, c) =~= ocs.update(i as int, c));
        }
        let p = match parsed {
            Some(p) => p,
            None => {
                self.put_back(i, c);
                return Outcome { reply: None, event: ServerEvent::Malformed };
            },
        };
        if p.sequence_number <= c.last_seq {
            self.put_back(i, c);
            return Outcome {
                reply: None,
                event: ServerEvent::Replayed { sequence_number: p.sequence_number },
            };
        }
        let is_position = p.packet_type == PacketType::PlayerPosition;
        let reply = if p.is_reliable() {
            Some(ack(p.sequence_number))
        } else {
            None
        };
        c.last_seq = p.sequence_number;
        let event = if is_event {
            ServerEvent::Message { payload: p.payload }
        } else if is_position {
            let payload = &p.payload;
            if payload.len() == 8 {
                c.x = ((payload[0] as u32) << 24) | ((payload[1] as u32) << 16) | ((payload[2] as u32)
                    << 8) | (payload[3] as u32);
                c.y = ((payload[4] as u32) << 24) | ((payload[5] as u32) << 16) | ((payload[6] as u32)
                    << 8) | (payload[7] as u32);
            }
            ServerEvent::PositionReported
        } else {
            ServerEvent::Ignored
        };
        proof {
            lemma_client_after_wf(oc, c, f, !is_event, is_event, c.last_seq, c.x, c.y);
            assert(ocs.remove(i as int).insert(i as int, c) =~= ocs.update(i as int, c));
        }
        self.put_back(i, c);
        Outcome { reply, event }
    }

    /// Handles one datagram `raw` from `from` with the fresh values `f`, as
    /// `handled` says.
    pub fn handle(&mut self, raw: &[u8], from: PeerAddr, secret: &[u8], f: Fresh) -> (out: Outcome)
        requires
            old(self).wf(),
        ensures
            final(self).wf(),
            handled(*old(self), *final(self), raw@, from, secret@, f, out),
    {
        match parse_ack(raw) {
            AckParse::Ack(seq) => {
                if let Some(s) = seq {
                    self.acknowledge(s);
                }
                return Outcome { reply: None, event: ServerEvent::Acknowledged { seq } };
            },
            AckParse::NotAck => {},
        }
        match self.find_client(from) {
            None => self.on_unknown(raw, from, f),
            Some(i) => {
                let state = match &self.clients[i].state {
                    ClientState::Pending { nonce, .. } => Ok(*nonce),
                    ClientState::Authenticated { session_key } => Err(*session_key),
                };
                match state {
                    Ok(nonce) => self.on_pending(i, nonce, raw, secret, f),
                    Err(key) => self.on_authenticated(i, key, raw, f),
                }
            },
        }
    }

    /// Handles one datagram `raw` from `from`, taking a nonce and a random
    /// UUID from the random generator when the sender is unknown, and the time
    /// from the monotonic clock.
    pub fn handle_datagram(&mut self, raw: &[u8], from: PeerAddr, secret: &[u8]) -> (out: Outcome)
        requires
            old(self).wf(),
        ensures
            final(self).wf(),
            exists|f: Fresh|
                {
                    &&& index_of_addr(old(self).clients@, from) is None ==> is_v4_uuid(f.id)
                    &&& handled(*old(self), *final(self), raw@, from, secret@, f, out)
                },
    {
        let now = instant_now();
        let f = match self.find_client(from) {
            None => Fresh {
                nonce: generate_nonce(),
                id: new_client_id(),
                now,
                rate_now: 0,
                event_now: 0,
            },
            Some(i) => {
                let c = &self.clients[i];
                Fresh {
                    nonce: [0u8; 16],
                    id: [0u8; 16],
                    now,
                    rate_now: c.rate.clock(),
                    event_now: c.event_rate.clock(),
                }
            },
        };
        self.handle(raw, from, secret, f)
    }
}

/// Parsing ignores the flags byte: the encodings of two packets that differ
/// only in their flags parse alike.
proof fn lemma_parse_ignores_flags(p: PacketModel, flags: u8)
    ensures
        parse_wire(wire_bytes(p)) == parse_wire(wire_bytes(PacketModel { flags, ..p })),
{
    let a = wire_bytes(p);
    let b = wire_bytes(PacketModel { flags, ..p });
    assert(a.len() == b.len());
    assert(forall|k: int| 0 <= k < 5 ==> a[k] == b[k]);
    assert(a.skip(6) =~= b.skip(6));
}

/// The handshake accepts exactly the right answer: when the pending client at
/// `i` sends an AuthResponse, it is authenticated with the session key and
/// welcomed if the payload is the session key derived from the shared secret
/// and its nonce, and evicted otherwise.
pub proof fn lemma_handshake(
    old: ServerState,
    new: ServerState,
    i: int,
    nonce: [u8; 16],
    created_at: Instant,
    response: PacketModel,
    secret: Seq<u8>,
    f: Fresh,
    out: Outcome,
)
    requires
        old.wf(),
        0 <= i < old.clients@.len(),
        old.clients@[i].state == (ClientState::Pending { nonce, created_at }),
        response.packet_type == PacketType::AuthResponse,
        handled(old, new, wire_bytes(response), old.clients@[i].addr, secret, f, out),
    ensures
        response.payload == hmac_sha256(secret, nonce@)@ ==> {
            &&& new.clients@[i].state == (ClientState::Authenticated {
                session_key: hmac_sha256(secret, nonce@),
            })
            &&& new.clients@[i].id == old.clients@[i].id
            &&& option_bytes_view(out.reply) == Some(welcome_bytes(old.clients@[i].id))
            &&& out.event == (ServerEvent::Authenticated { id: old.clients@[i].id })
        },
        response.payload != hmac_sha256(secret, nonce@)@ ==> {
            &&& new.clients@ == old.clients@.remove(i)
            &&& out.event == ServerEvent::AuthFailed
        },
{
    let raw = wire_bytes(response);
    lemma_index_of_addr(old.clients@, i);
    let canon = PacketModel { flags: canonical_flags(response.packet_type), ..response };
    lemma_parse_ignores_flags(response, canonical_flags(response.packet_type));
    lemma_parse_encoded(canon);
    assert(raw[0] == 6);
    assert(ack_of(raw) == AckParse::NotAck);
}

/// Integrity: a datagram from an authenticated client that is not some packet
/// signed with the client's session key (and not an acknowledgement) is
/// dropped and changes nothing.
pub proof fn lemma_unsigned_dropped(
    old: ServerState,
    new: ServerState,
    i: int,
    key: [u8; 32],
    raw: Seq<u8>,
    secret: Seq<u8>,
    f: Fresh,
    out: Outcome,
)
    requires
        old.wf(),
        0 <= i < old.clients@.len(),
        old.clients@[i].state == (ClientState::Authenticated { session_key: key }),
        forall|m: Seq<u8>| raw != #[trigger] signed_bytes(key@, m),
        ack_of(raw) == AckParse::NotAck,
        handled(old, new, raw, old.clients@[i].addr, secret, f, out),
    ensures
        new.clients@ == old.clients@,
        new.pending@ == old.pending@,
        out.reply is None,
        out.event == ServerEvent::TagRejected,
{
    lemma_index_of_addr(old.clients@, i);
    if let Some(m) = verified_payload(key@, raw) {
        lemma_verified_iff_signed(key@, raw, m);
        assert(raw == signed_bytes(key@, m));
    }
}

/// An acknowledgement of packet `seq`, as the server sends them, forgets the
/// waiting packet numbered `seq`, whoever sends it.
pub proof fn lemma_ack_forgets(
    old: ServerState,
    new: ServerState,
    seq: u32,
    from: PeerAddr,
    secret: Seq<u8>,
    f: Fresh,
    out: Outcome,
)
    requires
        handled(old, new, ack_bytes(seq), from, secret, f, out),
    ensures
        new.clients@ == old.clients@,
        new.pending@ == without_seq(old.pending@, seq),
        out.event == (ServerEvent::Acknowledged { seq: Some(seq) }),
{
    lemma_ack_roundtrip(seq);
}

/// Whether an outcome is that of an accepted packet from an authenticated
/// client.
pub open spec fn accepted(out: Outcome) -> bool {
    ||| out.event is Message
    ||| out.event is PositionReported
    ||| out.event is Ignored
}

/// Whether two clients are at one address, with the same last accepted
/// sequence number and position.
pub open spec fn same_progress(a: Client, b: Client) -> bool {
    &&& a.addr == b.addr
    &&& a.last_seq == b.last_seq
    &&& a.x == b.x
    &&& a.y == b.y
}

/// Replay protection: the same datagram, sent again after it was accepted, is
/// not accepted again. It is answered with nothing and leaves the sender's
/// last sequence number and position as they were, its limiter having counted
/// it: it is dropped as a replay, or refused over the rate limit (and the
/// sender perhaps kicked).
pub proof fn lemma_replay_rejected(
    s0: ServerState,
    s1: ServerState,
    s2: ServerState,
    raw: Seq<u8>,
    from: PeerAddr,
    secret: Seq<u8>,
    f1: Fresh,
    f2: Fresh,
    o1: Outcome,
    o2: Outcome,
)
    requires
        s0.wf(),
        s1.wf(),
        handled(s0, s1, raw, from, secret, f1, o1),
        handled(s1, s2, raw, from, secret, f2, o2),
        accepted(o1),
    ensures
        o2.reply is None,
        o2.event is Replayed || o2.event is RateLimited,
        s2.pending@ == s1.pending@,
        index_of_addr(s1.clients@, from) matches Some(i) && (s2.clients@ == s1.clients@.remove(i)
            || (replaced_at(s1.clients@, s2.clients@, i) && same_progress(
            s2.clients@[i],
            s1.clients@[i],
        ))),
{
    assert(ack_of(raw) == AckParse::NotAck);
    let i = index_of_addr(s0.clients@, from).unwrap();
    let c0 = s0.clients@[i];
    let key = match c0.state {
        ClientState::Authenticated { session_key } => session_key,
        ClientState::Pending { .. } => arbitrary(),
    };
    assert(c0.state is Authenticated);
    let body = verified_payload(key@, raw).unwrap();
    let p = parse_wire(body).unwrap();
    let c1 = s1.clients@[i];
    assert(c1.addr == from && c1.state == c0.state && c1.last_seq == p.sequence_number);
    lemma_index_of_addr(s1.clients@, i);
    assert(index_of_addr(s1.clients@, from) == Some(i));
}

/// Whether every client of `ns` at an address that some client of `cs` holds
/// has a last accepted sequence number no lower than that client's.
pub open spec fn last_seqs_kept(cs: Seq<Client>, ns: Seq<Client>) -> bool {
    forall|j: int|
        0 <= j < ns.len() ==> (index_of_addr(cs, #[trigger] ns[j].addr) matches Some(k)
            ==> ns[j].last_seq >= cs[k].last_seq)
}

/// Whether some client of `cs` is at the address of `c`, with a last
/// accepted sequence number no higher than that of `c`.
spec fn traced(cs: Seq<Client>, c: Client) -> bool {
    exists|k: int| 0 <= k < cs.len() && cs[k].addr == c.addr && cs[k].last_seq <= c.last_seq
}

proof fn lemma_traced_kept(cs: Seq<Client>, ns: Seq<Client>)
    requires
        addrs_distinct(cs),
        forall|j: int|
            0 <= j < ns.len() ==> traced(cs, #[trigger] ns[j]) || index_of_addr(cs, ns[j].addr) is None,
    ensures
        last_seqs_kept(cs, ns),
{
    assert forall|j: int| 0 <= j < ns.len() implies (index_of_addr(cs, #[trigger] ns[j].addr) matches Some(k)
        ==> ns[j].last_seq >= cs[k].last_seq) by {
        if traced(cs, ns[j]) {
            let k = choose|k: int| 0 <= k < cs.len() && cs[k].addr == ns[j].addr && cs[k].last_seq <= ns[j].last_seq;
            lemma_index_of_addr(cs, k);
        }
    }
}

proof fn lemma_remove_traced(cs: Seq<Client>, i: int)
    requires
        0 <= i < cs.len(),
    ensures
        forall|j: int| 0 <= j < cs.remove(i).len() ==> traced(cs, #[trigger] cs.remove(i)[j]),
{
    assert forall|j: int| 0 <= j < cs.remove(i).len() implies traced(cs, #[trigger] cs.remove(i)[j]) by {
        if j < i {
            assert(cs.remove(i)[j] == cs[j]);
        } else {
            assert(cs.remove(i)[j] == cs[j + 1]);
        }
    }
}

proof fn lemma_replaced_traced(cs: Seq<Client>, ns: Seq<Client>, i: int)
    requires
        0 <= i < cs.len(),
        replaced_at(cs, ns, i),
        ns[i].addr == cs[i].addr,
        ns[i].last_seq >= cs[i].last_seq,
    ensures
        forall|j: int| 0 <= j < ns.len() ==> traced(cs, #[trigger] ns[j]),
{
    assert forall|j: int| 0 <= j < ns.len() implies traced(cs, #[trigger] ns[j]) by {
        if j != i {
            assert(ns[j] == cs[j]);
        }
    }
}

/// Handling a datagram never lowers a client's last accepted sequence
/// number: every client after the step whose address a client held before
/// has a last sequence number at least as high as that client had.
pub proof fn lemma_last_seq_never_lowers(
    old: ServerState,
    new: ServerState,
    raw: Seq<u8>,
    from: PeerAddr,
    secret: Seq<u8>,
    f: Fresh,
    out: Outcome,
)
    requires
        old.wf(),
        handled(old, new, raw, from, secret, f, out),
    ensures
        last_seqs_kept(old.clients@, new.clients@),
{
    let cs = old.clients@;
    let ns = new.clients@;
    if ns == cs {
        assert forall|j: int| 0 <= j < ns.len() implies traced(cs, #[trigger] ns[j]) by {
            assert(cs[j] == ns[j]);
        }
    } else if ns.len() == cs.len() + 1 {
        assert(ack_of(raw) == AckParse::NotAck);
        assert(index_of_addr(cs, from) is None);
        assert forall|j: int| 0 <= j < ns.len() implies traced(cs, #[trigger] ns[j]) || index_of_addr(
            cs,
            ns[j].addr,
        ) is None by {
            if j < cs.len() {
                assert(ns.drop_last()[j] == ns[j]);
            }
        }
    } else {
        assert(ack_of(raw) == AckParse::NotAck);
        let i = index_of_addr(cs, from).unwrap();
        if ns == cs.remove(i) {
            lemma_remove_traced(cs, i);
        } else {
            lemma_replaced_traced(cs, ns, i);
        }
    }
    lemma_traced_kept(cs, ns);
}

/// Acceptance and acknowledgement: a packet that an authenticated client
/// signs with its session key, numbered above the last one accepted from it,
/// and within the limit of the limiter that counts it, is accepted: it
/// becomes the client's last accepted packet, a game event or chat message is
/// logged with its payload and acknowledged with `ACK:<seq>`, a position
/// report is reported, and any other packet is taken and ignored; nothing but
/// a game event or chat message is answered.
pub proof fn lemma_signed_packet_accepted(
    old: ServerState,
    new: ServerState,
    i: int,
    key: [u8; 32],
    p: PacketModel,
    secret: Seq<u8>,
    f: Fresh,
    out: Outcome,
)
    requires
        old.wf(),
        0 <= i < old.clients@.len(),
        old.clients@[i].state == (ClientState::Authenticated { session_key: key }),
        p.sequence_number > old.clients@[i].last_seq,
        p.packet_type == PacketType::GameEvent || p.packet_type == PacketType::ChatMessages
            ==> rate_step(old.clients@[i].event_rate@, f.event_now).0,
        !(p.packet_type == PacketType::GameEvent || p.packet_type == PacketType::ChatMessages)
            ==> rate_step(old.clients@[i].rate@, f.rate_now).0,
        handled(
            old,
            new,
            signed_bytes(key@, wire_bytes(p)),
            old.clients@[i].addr,
            secret,
            f,
            out,
        ),
    ensures
        new.clients@.len() == old.clients@.len(),
        new.clients@[i].last_seq == p.sequence_number,
        new.pending@ == old.pending@,
        p.packet_type == PacketType::GameEvent || p.packet_type == PacketType::ChatMessages ==> {
            &&& option_bytes_view(out.reply) == Some(ack_bytes(p.sequence_number))
            &&& out.event matches ServerEvent::Message { payload } && payload@ == p.payload
        },
        !(p.packet_type == PacketType::GameEvent || p.packet_type == PacketType::ChatMessages)
            ==> out.reply is None,
        p.packet_type == PacketType::PlayerPosition ==> out.event == ServerEvent::PositionReported,
        !(p.packet_type == PacketType::GameEvent || p.packet_type == PacketType::ChatMessages
            || p.packet_type == PacketType::PlayerPosition) ==> out.event == ServerEvent::Ignored,
{
    let body = wire_bytes(p);
    let raw = signed_bytes(key@, body);
    lemma_index_of_addr(old.clients@, i);
    lemma_verify_signed(key@, body);
    let canon = PacketModel { flags: canonical_flags(p.packet_type), ..p };
    lemma_parse_ignores_flags(p, canonical_flags(p.packet_type));
    lemma_parse_encoded(canon);
    assert(parse_wire(body) == Some(canon));
    assert(raw[0] == body[0]);
    assert(raw[0] <= 6);
    assert(ack_of(raw) == AckParse::NotAck);
}

} // verus!
