//! The server's shared state: its clients and its unacknowledged reliable
//! packets, and what the server does to them.

use crate::auth::{lemma_verify_signed, sign, signed_bytes, verified_payload};
use crate::client::{client_wf, Client, ClientState, PeerAddr, PendingPacket};
use crate::clock::{elapsed_millis, elapsed_secs, instant_now};
use crate::packet::{
    be_u32_bytes, be_u32_value, be_u64_bytes, push_be_u32, push_be_u64, FLAG_UNRELIABLE,
    MAX_RETRIES, RETRY_INTERVAL_MS,
};
use std::time::Instant;
use vstd::prelude::*;

verus! {

/// An unauthenticated client is evicted this many seconds after it connected.
pub const PENDING_TIMEOUT_SECS: u64 = 5u64;

/// Bytes to send to a peer.
pub struct Outgoing {
    pub to: PeerAddr,
    pub bytes: Vec<u8>,
}

/// The model of bytes to send to a peer.
pub open spec fn outgoing_view(o: Outgoing) -> (PeerAddr, Seq<u8>) {
    (o.to, o.bytes@)
}

/// Whether no two clients share an address.
pub open spec fn addrs_distinct(cs: Seq<Client>) -> bool {
    forall|i: int, j: int| 0 <= i < j < cs.len() ==> cs[i].addr != cs[j].addr
}

/// Whether no two waiting packets share a sequence number.
pub open spec fn seqs_distinct(ps: Seq<PendingPacket>) -> bool {
    forall|i: int, j: int| 0 <= i < j < ps.len() ==> ps[i].seq != ps[j].seq
}

/// Whether every client is well formed.
pub open spec fn clients_wf(cs: Seq<Client>) -> bool {
    forall|i: int| 0 <= i < cs.len() ==> client_wf(#[trigger] cs[i])
}

/// The index of the client at `addr`, if there is one.
pub open spec fn index_of_addr(cs: Seq<Client>, addr: PeerAddr) -> Option<int> {
    if exists|i: int| 0 <= i < cs.len() && cs[i].addr == addr {
        Some(choose|i: int| 0 <= i < cs.len() && cs[i].addr == addr)
    } else {
        None
    }
}

/// The waiting packets without the one numbered `seq`, if there is one.
pub open spec fn without_seq(ps: Seq<PendingPacket>, seq: u32) -> Seq<PendingPacket> {
    if exists|i: int| 0 <= i < ps.len() && ps[i].seq == seq {
        ps.remove(choose|i: int| 0 <= i < ps.len() && ps[i].seq == seq)
    } else {
        ps
    }
}

/// A client with a new position.
pub open spec fn with_position(c: Client, x: u32, y: u32) -> Client {
    Client { x, y, ..c }
}

/// The position that a PlayerPosition payload carries, if it is one: two
/// big-endian `f32`s, x then y, eight bytes in all.
pub open spec fn position_of(payload: Seq<u8>) -> Option<(u32, u32)> {
    if payload.len() == 8 {
        Some(
            (
                be_u32_value(payload[0], payload[1], payload[2], payload[3]),
                be_u32_value(payload[4], payload[5], payload[6], payload[7]),
            ),
        )
    } else {
        None
    }
}

/// Whether a client is stale at `age_secs` seconds since it connected: still
/// unauthenticated after the timeout.
pub open spec fn is_stale(c: Client, age_secs: u64) -> bool {
    &&& c.state is Pending
    &&& age_secs >= PENDING_TIMEOUT_SECS
}

/// The clients that are not stale, given each one's age, in order.
pub open spec fn survivors(cs: Seq<Client>, ages: Seq<u64>) -> Seq<Client>
    decreases cs.len(),
{
    if cs.len() == 0 {
        seq![]
    } else {
        let rest = survivors(cs.drop_last(), ages.take(cs.len() - 1));
        if is_stale(cs.last(), ages[cs.len() - 1]) {
            rest
        } else {
            rest.push(cs.last())
        }
    }
}

/// Whether a waiting packet is due for a resend or giving up: a resend
/// interval or more has passed since it was last sent.
pub open spec fn is_due(elapsed_ms: u64) -> bool {
    elapsed_ms >= RETRY_INTERVAL_MS
}

/// Whether a due packet is given up: it was already resent the most times.
pub open spec fn is_exhausted(p: PendingPacket) -> bool {
    p.retries >= MAX_RETRIES
}

/// The waiting packets after a retransmit pass at `now`, given the time since
/// each was last sent: exhausted due packets are dropped, other due packets
/// count one more resend sent now, and the rest stay as they are.
pub open spec fn after_retransmit(ps: Seq<PendingPacket>, ages: Seq<u64>, now: Instant) -> Seq<
    PendingPacket,
>
    decreases ps.len(),
{
    if ps.len() == 0 {
        seq![]
    } else {
        let rest = after_retransmit(ps.drop_last(), ages.take(ps.len() - 1), now);
        let p = ps.last();
        if is_due(ages[ps.len() - 1]) {
            if is_exhausted(p) {
                rest
            } else {
                rest.push(PendingPacket { retries: (p.retries + 1) as u32, sent_at: now, ..p })
            }
        } else {
            rest.push(p)
        }
    }
}

/// What a retransmit pass sends, in order: each due packet that is not
/// exhausted, to its peer.
pub open spec fn resent(ps: Seq<PendingPacket>, ages: Seq<u64>) -> Seq<(PeerAddr, Seq<u8>)>
    decreases ps.len(),
{
    if ps.len() == 0 {
        seq![]
    } else {
        let rest = resent(ps.drop_last(), ages.take(ps.len() - 1));
        let p = ps.last();
        if is_due(ages[ps.len() - 1]) && !is_exhausted(p) {
            rest.push((p.addr, p.data@))
        } else {
            rest
        }
    }
}

/// What a retransmit pass gives up, in order: the sequence number and peer of
/// each due packet that is exhausted.
pub open spec fn given_up(ps: Seq<PendingPacket>, ages: Seq<u64>) -> Seq<(u32, PeerAddr)>
    decreases ps.len(),
{
    if ps.len() == 0 {
        seq![]
    } else {
        let rest = given_up(ps.drop_last(), ages.take(ps.len() - 1));
        let p = ps.last();
        if is_due(ages[ps.len() - 1]) && is_exhausted(p) {
            rest.push((p.seq, p.addr))
        } else {
            rest
        }
    }
}

/// The authenticated clients, in order.
pub open spec fn authenticated(cs: Seq<Client>) -> Seq<Client>
    decreases cs.len(),
{
    if cs.len() == 0 {
        seq![]
    } else {
        let rest = authenticated(cs.drop_last());
        if cs.last().state is Authenticated {
            rest.push(cs.last())
        } else {
            rest
        }
    }
}

/// The number of unauthenticated clients.
pub open spec fn pending_count(cs: Seq<Client>) -> nat
    decreases cs.len(),
{
    if cs.len() == 0 {
        0
    } else {
        pending_count(cs.drop_last()) + if cs.last().state is Pending {
            1nat
        } else {
            0nat
        }
    }
}

/// A player's entry in a snapshot: UUID bytes, x, y.
pub open spec fn player_entry(c: Client) -> Seq<u8> {
    c.id@ + be_u32_bytes(c.x) + be_u32_bytes(c.y)
}

/// The entries of players, in order.
pub open spec fn player_entries(cs: Seq<Client>) -> Seq<u8>
    decreases cs.len(),
{
    if cs.len() == 0 {
        seq![]
    } else {
        player_entries(cs.drop_last()) + player_entry(cs.last())
    }
}

/// The world snapshot of tick `tick`:
/// `[ type | tick_u32 | flags | tick_u64 | player_count | (uuid | x | y)* ]`,
/// with the authenticated clients as players. The tick and the count are
/// truncated to their fields.
pub open spec fn snapshot_bytes(tick: u64, cs: Seq<Client>) -> Seq<u8> {
    let players = authenticated(cs);
    seq![4u8] + be_u32_bytes(tick as u32) + seq![FLAG_UNRELIABLE] + be_u64_bytes(tick) + seq![
        players.len() as u8,
    ] + player_entries(players)
}

/// The session key of an authenticated client.
pub open spec fn session_key_of(c: Client) -> Seq<u8> {
    match c.state {
        ClientState::Authenticated { session_key } => session_key@,
        ClientState::Pending { .. } => Seq::empty(),
    }
}


/// What a snapshot broadcast sends: to each authenticated client, in order,
/// the snapshot signed with that client's session key.
pub open spec fn snapshot_sends(tick: u64, cs: Seq<Client>) -> Seq<(PeerAddr, Seq<u8>)> {
    authenticated(cs).map_values(
        |c: Client| (c.addr, signed_bytes(session_key_of(c), snapshot_bytes(tick, cs))),
    )
}

/// What a retransmit pass does besides updating the waiting packets.
pub struct RetransmitReport {
    /// The packets resent, in order.
    pub resend: Vec<Outgoing>,
    /// The sequence number and peer of each packet given up, in order.
    pub gave_up: Vec<(u32, PeerAddr)>,
}

/// A retransmit pass keeps the sequence numbers of waiting packets distinct.
proof fn lemma_after_retransmit(ps: Seq<PendingPacket>, ages: Seq<u64>, now: Instant)
    requires
        ages.len() == ps.len(),
    ensures
        forall|k: int|
            0 <= k < after_retransmit(ps, ages, now).len() ==> exists|j: int|
                0 <= j < ps.len() && #[trigger] after_retransmit(ps, ages, now)[k].seq == ps[j].seq,
        seqs_distinct(ps) ==> seqs_distinct(after_retransmit(ps, ages, now)),
    decreases ps.len(),
{
    if ps.len() > 0 {
        let init = ps.drop_last();
        let ia = ages.take(ps.len() - 1);
        lemma_after_retransmit(init, ia, now);
        let rest = after_retransmit(init, ia, now);
        let s = after_retransmit(ps, ages, now);
        assert forall|k: int| 0 <= k < s.len() implies exists|j: int|
            0 <= j < ps.len() && #[trigger] s[k].seq == ps[j].seq by {
            if k < rest.len() {
                let j = choose|j: int| 0 <= j < init.len() && rest[k].seq == init[j].seq;
                assert(s[k].seq == ps[j].seq);
            } else {
                assert(s[k].seq == ps[ps.len() - 1].seq);
            }
        }
        if seqs_distinct(ps) {
            assert(seqs_distinct(init));
            assert forall|a: int, b: int| 0 <= a < b < s.len() implies s[a].seq != s[b].seq by {
                if b < rest.len() {
                } else {
                    let j = choose|j: int| 0 <= j < init.len() && rest[a].seq == init[j].seq;
                    assert(s[a].seq == ps[j].seq);
                    assert(s[b].seq == ps[ps.len() - 1].seq);
                }
            }
        }
    }
}

/// Eviction never removes an authenticated client: the authenticated clients
/// after it are those before it, in order.
pub proof fn lemma_eviction_keeps_authenticated(cs: Seq<Client>, ages: Seq<u64>)
    requires
        ages.len() == cs.len(),
    ensures
        authenticated(survivors(cs, ages)) == authenticated(cs),
    decreases cs.len(),
{
    if cs.len() > 0 {
        let init = cs.drop_last();
        let ia = ages.take(cs.len() - 1);
        lemma_eviction_keeps_authenticated(init, ia);
        let rest = survivors(init, ia);
        if !is_stale(cs.last(), ages[cs.len() - 1]) {
            assert(rest.push(cs.last()).drop_last() =~= rest);
        }
    }
}

/// Eviction removes exactly the stale clients: a client survives if and only
/// if it is authenticated or connected less than the timeout ago.
pub proof fn lemma_eviction_removes_stale(cs: Seq<Client>, ages: Seq<u64>)
    requires
        ages.len() == cs.len(),
    ensures
        survivors(cs, ages).len() <= cs.len(),
        forall|k: int|
            0 <= k < survivors(cs, ages).len() ==> exists|j: int|
                0 <= j < cs.len() && #[trigger] survivors(cs, ages)[k] == cs[j] && !is_stale(
                    cs[j],
                    ages[j],
                ),
        forall|j: int|
            0 <= j < cs.len() && !is_stale(#[trigger] cs[j], ages[j]) ==> survivors(
                cs,
                ages,
            ).contains(cs[j]),
    decreases cs.len(),
{
    if cs.len() > 0 {
        let init = cs.drop_last();
        let ia = ages.take(cs.len() - 1);
        lemma_eviction_removes_stale(init, ia);
        let rest = survivors(init, ia);
        let sv = survivors(cs, ages);
        assert forall|k: int| 0 <= k < sv.len() implies exists|j: int|
            0 <= j < cs.len() && #[trigger] sv[k] == cs[j] && !is_stale(cs[j], ages[j]) by {
            if k < rest.len() {
                let j = choose|j: int|
                    0 <= j < init.len() && #[trigger] rest[k] == init[j] && !is_stale(
                        init[j],
                        ia[j],
                    );
                assert(sv[k] == cs[j] && ia[j] == ages[j]);
            } else {
                assert(sv[k] == cs[cs.len() - 1]);
            }
        }
        assert forall|j: int| 0 <= j < cs.len() && !is_stale(#[trigger] cs[j], ages[j]) implies sv.contains(
            cs[j],
        ) by {
            if j < cs.len() - 1 {
                assert(init[j] == cs[j] && ia[j] == ages[j]);
                assert(rest.contains(init[j]));
                let k = choose|k: int| 0 <= k < rest.len() && rest[k] == init[j];
                assert(sv[k] == rest[k]);
            } else {
                assert(sv[sv.len() - 1] == cs[j]);
            }
        }
    }
}

/// A waiting packet is resent at most `MAX_RETRIES` times: a retransmit pass
/// keeps every waiting packet within that bound.
pub proof fn lemma_retries_bounded(ps: Seq<PendingPacket>, ages: Seq<u64>, now: Instant)
    requires
        ages.len() == ps.len(),
        forall|k: int| 0 <= k < ps.len() ==> (#[trigger] ps[k]).retries <= MAX_RETRIES,
    ensures
        forall|k: int|
            0 <= k < after_retransmit(ps, ages, now).len() ==> (#[trigger] after_retransmit(
                ps,
                ages,
                now,
            )[k]).retries <= MAX_RETRIES,
    decreases ps.len(),
{
    if ps.len() > 0 {
        let init = ps.drop_last();
        let ia = ages.take(ps.len() - 1);
        assert forall|k: int| 0 <= k < init.len() implies (#[trigger] init[k]).retries
            <= MAX_RETRIES by {
            assert(init[k] == ps[k]);
        }
        lemma_retries_bounded(init, ia, now);
        let rest = after_retransmit(init, ia, now);
        let out = after_retransmit(ps, ages, now);
        assert forall|k: int| 0 <= k < out.len() implies (#[trigger] out[k]).retries
            <= MAX_RETRIES by {
            if k < rest.len() {
                assert(out[k] == rest[k]);
            }
        }
    }
}

/// Every snapshot that a broadcast sends passes the tag check of its
/// recipient's session key, which gives back the snapshot itself.
pub proof fn lemma_snapshots_verify(tick: u64, cs: Seq<Client>, k: int)
    requires
        0 <= k < authenticated(cs).len(),
    ensures
        snapshot_sends(tick, cs)[k].0 == authenticated(cs)[k].addr,
        verified_payload(session_key_of(authenticated(cs)[k]), snapshot_sends(tick, cs)[k].1)
            == Some(snapshot_bytes(tick, cs)),
{
    lemma_verify_signed(session_key_of(authenticated(cs)[k]), snapshot_bytes(tick, cs));
}

/// The server's clients and waiting reliable packets.
pub struct ServerState {
    /// The clients, no two at one address.
    pub clients: Vec<Client>,
    /// The reliable packets waiting for acknowledgement, no two with one
    /// sequence number.
    pub pending: Vec<PendingPacket>,
}

/// The client at `i` is the only one at its address.
pub proof fn lemma_index_of_addr(cs: Seq<Client>, i: int)
    requires
        addrs_distinct(cs),
        0 <= i < cs.len(),
    ensures
        index_of_addr(cs, cs[i].addr) == Some(i),
{
}

/// The packet at `i` is the only one with its sequence number.
proof fn lemma_without_seq(ps: Seq<PendingPacket>, i: int)
    requires
        seqs_distinct(ps),
        0 <= i < ps.len(),
    ensures
        without_seq(ps, ps[i].seq) == ps.remove(i),
{
}

proof fn lemma_remove_pending(ps: Seq<PendingPacket>, i: int)
    requires
        seqs_distinct(ps),
        0 <= i < ps.len(),
    ensures
        seqs_distinct(ps.remove(i)),
        forall|j: int| 0 <= j < ps.remove(i).len() ==> ps.remove(i)[j].seq != ps[i].seq,
{
    let r = ps.remove(i);
    assert forall|a: int, b: int| 0 <= a < b < r.len() implies r[a].seq != r[b].seq by {
        let a2 = if a < i { a } else { a + 1 };
        let b2 = if b < i { b } else { b + 1 };
        assert(r[a] == ps[a2] && r[b] == ps[b2]);
    }
    assert forall|j: int| 0 <= j < r.len() implies r[j].seq != ps[i].seq by {
        let j2 = if j < i { j } else { j + 1 };
        assert(r[j] == ps[j2]);
    }
}

/// The survivors of an eviction are clients of the original sequence, and
/// keep its distinct addresses and well-formedness.
proof fn lemma_survivors(cs: Seq<Client>, ages: Seq<u64>)
    requires
        ages.len() == cs.len(),
    ensures
        forall|k: int|
            0 <= k < survivors(cs, ages).len() ==> exists|j: int|
                0 <= j < cs.len() && #[trigger] survivors(cs, ages)[k] == cs[j],
        addrs_distinct(cs) ==> addrs_distinct(survivors(cs, ages)),
        clients_wf(cs) ==> clients_wf(survivors(cs, ages)),
    decreases cs.len(),
{
    if cs.len() > 0 {
        let init = cs.drop_last();
        let ia = ages.take(cs.len() - 1);
        lemma_survivors(init, ia);
        let rest = survivors(init, ia);
        let s = survivors(cs, ages);
        assert forall|k: int| 0 <= k < s.len() implies exists|j: int|
            0 <= j < cs.len() && #[trigger] s[k] == cs[j] by {
            if k < rest.len() {
                let j = choose|j: int| 0 <= j < init.len() && rest[k] == init[j];
                assert(s[k] == cs[j]);
            } else {
                assert(s[k] == cs[cs.len() - 1]);
            }
        }
        if addrs_distinct(cs) {
            assert(addrs_distinct(init));
            assert forall|a: int, b: int| 0 <= a < b < s.len() implies s[a].addr != s[b].addr by {
                if b < rest.len() {
                } else {
                    let j = choose|j: int| 0 <= j < init.len() && rest[a] == init[j];
                    assert(s[a] == cs[j]);
                    assert(s[b] == cs[cs.len() - 1]);
                }
            }
        }
        if clients_wf(cs) {
            assert(clients_wf(init));
            assert forall|k: int| 0 <= k < s.len() implies client_wf(#[trigger] s[k]) by {
                if k < rest.len() {
                    let j = choose|j: int| 0 <= j < init.len() && rest[k] == init[j];
                    assert(client_wf(init[j]));
                } else {
                    assert(s[k] == cs[cs.len() - 1]);
                }
            }
        }
    }
}

impl ServerState {
    /// Whether the state is as the server keeps it: distinct client addresses,
    /// distinct waiting sequence numbers, and well-formed clients.
    pub open spec fn wf(&self) -> bool {
        &&& addrs_distinct(self.clients@)
        &&& seqs_distinct(self.pending@)
        &&& clients_wf(self.clients@)
    }

    /// A server with no clients and no waiting packets.
    pub fn new() -> (s: ServerState)
        ensures
            s.clients@ == Seq::<Client>::empty(),
            s.pending@ == Seq::<PendingPacket>::empty(),
            s.wf(),
    {
        ServerState { clients: Vec::new(), pending: Vec::new() }
    }

    /// The index of the client at `addr`, if there is one.
    pub fn find_client(&self, addr: PeerAddr) -> (r: Option<usize>)
        requires
            self.wf(),
        ensures
            match r {
                Some(i) => index_of_addr(self.clients@, addr) == Some(i as int),
                None => index_of_addr(self.clients@, addr) is None,
            },
    {
        let mut i: usize = 0;
        while i < self.clients.len()
            invariant
                self.wf(),
                i <= self.clients@.len(),
                forall|j: int| 0 <= j < i ==> self.clients@[j].addr != addr,
            decreases self.clients@.len() - i,
        {
            if self.clients[i].addr == addr {
                proof {
                    lemma_index_of_addr(self.clients@, i as int);
                }
                return Some(i);
            }
            i = i + 1;
        }
        None
    }

    /// Forgets the waiting packet numbered `seq`, if there is one: its
    /// acknowledgement has come.
    pub fn acknowledge(&mut self, seq: u32)
        requires
            old(self).wf(),
        ensures
            final(self).wf(),
            final(self).clients@ == old(self).clients@,
            final(self).pending@ == without_seq(old(self).pending@, seq),
            forall|j: int| 0 <= j < final(self).pending@.len() ==> final(self).pending@[j].seq != seq,
    {
        let mut i: usize = 0;
        while i < self.pending.len()
            invariant
                i <= self.pending@.len(),
                self.pending@ == old(self).pending@,
                self.clients@ == old(self).clients@,
                old(self).wf(),
                forall|j: int| 0 <= j < i ==> self.pending@[j].seq != seq,
            decreases self.pending@.len() - i,
        {
            if self.pending[i].seq == seq {
                proof {
                    lemma_without_seq(self.pending@, i as int);
                    lemma_remove_pending(self.pending@, i as int);
                }
                self.pending.remove(i);
                return;
            }
            i = i + 1;
        }
    }

    /// Moves the player at `addr` to the position that `payload` carries; does
    /// nothing when there is no client there or the payload is not a position.
    pub fn update_position_player(&mut self, addr: PeerAddr, payload: &[u8])
        requires
            old(self).wf(),
        ensures
            final(self).wf(),
            final(self).pending@ == old(self).pending@,
            final(self).clients@ == match (index_of_addr(old(self).clients@, addr), position_of(
                payload@,
            )) {
                (Some(i), Some((x, y))) => old(self).clients@.update(
                    i,
                    with_position(old(self).clients@[i], x, y),
                ),
                _ => old(self).clients@,
            },
    {
        if payload.len() != 8 {
            return;
        }
        let i = match self.find_client(addr) {
            Some(i) => i,
            None => return,
        };
        let x = ((payload[0] as u32) << 24) | ((payload[1] as u32) << 16) | ((payload[2] as u32)
            << 8) | (payload[3] as u32);
        let y = ((payload[4] as u32) << 24) | ((payload[5] as u32) << 16) | ((payload[6] as u32)
            << 8) | (payload[7] as u32);
        let mut c = self.clients.remove(i);
        c.x = x;
        c.y = y;
        self.clients.insert(i, c);
        proof {
            let cs = old(self).clients@;
            assert(self.clients@ =~= cs.update(i as int, with_position(cs[i as int], x, y)));
            assert forall|a: int, b: int| 0 <= a < b < self.clients@.len() implies
                self.clients@[a].addr != self.clients@[b].addr by {
                assert(self.clients@[a].addr == cs[a].addr && self.clients@[b].addr == cs[b].addr);
            }
            assert forall|j: int| 0 <= j < self.clients@.len() implies client_wf(
                #[trigger] self.clients@[j],
            ) by {
                assert(client_wf(cs[j]));
            }
        }
    }

    /// Evicts the clients that are stale given each one's age in seconds.
    pub fn evict_aged(&mut self, ages: &Vec<u64>)
        requires
            old(self).wf(),
            ages@.len() == old(self).clients@.len(),
        ensures
            final(self).wf(),
            final(self).pending@ == old(self).pending@,
            final(self).clients@ == survivors(old(self).clients@, ages@),
    {
        let ghost cs = self.clients@;
        let mut rest: Vec<Client> = Vec::new();
        std::mem::swap(&mut rest, &mut self.clients);
        let n = rest.len();
        let mut i: usize = 0;
        while i < n
            invariant
                i <= n == cs.len() == ages@.len(),
                cs == old(self).clients@,
                old(self).wf(),
                self.pending@ == old(self).pending@,
                rest@ == cs.skip(i as int),
                self.clients@ == survivors(cs.take(i as int), ages@.take(i as int)),
            decreases n - i,
        {
            let c = rest.remove(0);
            proof {
                assert(cs.take(i + 1).drop_last() =~= cs.take(i as int));
                assert(ages@.take(i + 1).take(i as int) =~= ages@.take(i as int));
                assert(rest@ =~= cs.skip(i + 1));
            }
            let stale = match &c.state {
                ClientState::Pending { .. } => ages[i] >= PENDING_TIMEOUT_SECS,
                ClientState::Authenticated { .. } => false,
            };
            if !stale {
                self.clients.push(c);
            }
            i = i + 1;
        }
        proof {
            assert(cs.take(n as int) =~= cs);
            assert(ages@.take(n as int) =~= ages@);
            lemma_survivors(cs, ages@);
        }
    }

    /// Evicts the unauthenticated clients that connected `PENDING_TIMEOUT_SECS`
    /// or more ago (by the monotonic clock).
    pub fn evict_stale_pending(&mut self)
        requires
            old(self).wf(),
        ensures
            final(self).wf(),
            final(self).pending@ == old(self).pending@,
            exists|ages: Seq<u64>|
                ages.len() == old(self).clients@.len() && final(self).clients@ == survivors(
                    old(self).clients@,
                    ages,
                ),
    {
        let mut ages: Vec<u64> = Vec::new();
        let mut i: usize = 0;
        while i < self.clients.len()
            invariant
                i <= self.clients@.len(),
                ages@.len() == i,
            decreases self.clients@.len() - i,
        {
            let age = match &self.clients[i].state {
                ClientState::Pending { created_at, .. } => elapsed_secs(created_at),
                ClientState::Authenticated { .. } => 0,
            };
            ages.push(age);
            i = i + 1;
        }
        self.evict_aged(&ages);
    }

    /// The number of unauthenticated clients.
    pub fn count_pending(&self) -> (n: usize)
        ensures
            n == pending_count(self.clients@),
    {
        let mut n: usize = 0;
        let mut i: usize = 0;
        while i < self.clients.len()
            invariant
                i <= self.clients@.len(),
                n == pending_count(self.clients@.take(i as int)),
                n <= i,
            decreases self.clients@.len() - i,
        {
            assert(self.clients@.take(i + 1).drop_last() =~= self.clients@.take(i as int));
            if let ClientState::Pending { .. } = &self.clients[i].state {
                n = n + 1;
            }
            i = i + 1;
        }
        assert(self.clients@.take(i as int) =~= self.clients@);
        n
    }

    /// One retransmit pass at `now`, given the milliseconds since each waiting
    /// packet was last sent: a packet due for a resend is given up when it was
    /// already resent `MAX_RETRIES` times, and is resent otherwise.
    pub fn retransmit_aged(&mut self, ages: &Vec<u64>, now: Instant) -> (r: RetransmitReport)
        requires
            old(self).wf(),
            ages@.len() == old(self).pending@.len(),
        ensures
            final(self).wf(),
            final(self).clients@ == old(self).clients@,
            final(self).pending@ == after_retransmit(old(self).pending@, ages@, now),
            r.resend@.map_values(|o: Outgoing| outgoing_view(o)) == resent(
                old(self).pending@,
                ages@,
            ),
            r.gave_up@ == given_up(old(self).pending@, ages@),
    {
        let ghost ps = self.pending@;
        let mut rest: Vec<PendingPacket> = Vec::new();
        std::mem::swap(&mut rest, &mut self.pending);
        let mut resend: Vec<Outgoing> = Vec::new();
        let mut gave_up: Vec<(u32, PeerAddr)> = Vec::new();
        let n = rest.len();
        let mut i: usize = 0;
        while i < n
            invariant
                i <= n == ps.len() == ages@.len(),
                ps == old(self).pending@,
                old(self).wf(),
                self.clients@ == old(self).clients@,
                rest@ == ps.skip(i as int),
                self.pending@ == after_retransmit(ps.take(i as int), ages@.take(i as int), now),
                resend@.map_values(|o: Outgoing| outgoing_view(o)) == resent(
                    ps.take(i as int),
                    ages@.take(i as int),
                ),
                gave_up@ == given_up(ps.take(i as int), ages@.take(i as int)),
            decreases n - i,
        {
            let mut p = rest.remove(0);
            proof {
                assert(ps.take(i + 1).drop_last() =~= ps.take(i as int));
                assert(ages@.take(i + 1).take(i as int) =~= ages@.take(i as int));
                assert(rest@ =~= ps.skip(i + 1));
            }
            let ghost old_resend = resend@;
            if ages[i] >= RETRY_INTERVAL_MS {
                if p.retries >= MAX_RETRIES {
                    gave_up.push((p.seq, p.addr));
                } else {
                    p.retries = p.retries + 1;
                    p.sent_at = now;
                    let bytes = vstd::slice::slice_to_vec(p.data.as_slice());
                    resend.push(Outgoing { to: p.addr, bytes });
                    self.pending.push(p);
                    assert(resend@.map_values(|o: Outgoing| outgoing_view(o)) =~= old_resend.map_values(
                        |o: Outgoing| outgoing_view(o),
                    ).push(outgoing_view(resend@.last())));
                }
            } else {
                self.pending.push(p);
            }
            i = i + 1;
        }
        proof {
            assert(ps.take(n as int) =~= ps);
            assert(ages@.take(n as int) =~= ages@);
            lemma_after_retransmit(ps, ages@, now);
        }
        RetransmitReport { resend, gave_up }
    }

    /// One retransmit pass now (by the monotonic clock): see `retransmit_aged`.
    pub fn retransmit_due(&mut self) -> (r: RetransmitReport)
        requires
            old(self).wf(),
        ensures
            final(self).wf(),
            final(self).clients@ == old(self).clients@,
            exists|ages: Seq<u64>, now: Instant|
                {
                    &&& ages.len() == old(self).pending@.len()
                    &&& final(self).pending@ == after_retransmit(old(self).pending@, ages, now)
                    &&& r.resend@.map_values(|o: Outgoing| outgoing_view(o)) == resent(
                        old(self).pending@,
                        ages,
                    )
                    &&& r.gave_up@ == given_up(old(self).pending@, ages)
                },
    {
        let mut ages: Vec<u64> = Vec::new();
        let mut i: usize = 0;
        while i < self.pending.len()
            invariant
                i <= self.pending@.len(),
                ages@.len() == i,
            decreases self.pending@.len() - i,
        {
            let ms = elapsed_millis(&self.pending[i].sent_at) as u64;
            ages.push(ms);
            i = i + 1;
        }
        let now = instant_now();
        self.retransmit_aged(&ages, now)
    }

    /// The world snapshot of tick `tick`, with every authenticated client as a
    /// player.
    pub fn snapshot(&self, tick: u64) -> (pkt: Vec<u8>)
        ensures
            pkt@ == snapshot_bytes(tick, self.clients@),
    {
        let ghost cs = self.clients@;
        let mut entries: Vec<u8> = Vec::new();
        let mut count: usize = 0;
        let mut i: usize = 0;
        while i < self.clients.len()
            invariant
                cs == self.clients@,
                i <= cs.len(),
                count == authenticated(cs.take(i as int)).len(),
                count <= i,
                entries@ == player_entries(authenticated(cs.take(i as int))),
            decreases cs.len() - i,
        {
            assert(cs.take(i + 1).drop_last() =~= cs.take(i as int));
            let c = &self.clients[i];
            let ghost prev = authenticated(cs.take(i as int));
            assert(cs.take(i + 1).last() == cs[i as int]);
            if let ClientState::Authenticated { .. } = &c.state {
                let ghost before = entries@;
                entries.extend_from_slice(c.id.as_slice());
                push_be_u32(&mut entries, c.x);
                push_be_u32(&mut entries, c.y);
                assert(entries@ =~= before + player_entry(*c));
                assert(authenticated(cs.take(i + 1)) == prev.push(*c));
                assert(prev.push(*c).drop_last() =~= prev);
                count = count + 1;
            } else {
                assert(authenticated(cs.take(i + 1)) == prev);
            }
            i = i + 1;
        }
        assert(cs.take(i as int) =~= cs);
        let mut pkt: Vec<u8> = Vec::new();
        pkt.push(4u8);
        push_be_u32(&mut pkt, #[verifier::truncate] (tick as u32));
        pkt.push(FLAG_UNRELIABLE);
        push_be_u64(&mut pkt, tick);
        pkt.push(#[verifier::truncate] (count as u8));
        pkt.extend_from_slice(entries.as_slice());
        assert(pkt@ =~= snapshot_bytes(tick, cs));
        pkt
    }

    /// The snapshot of tick `tick`, signed for each authenticated client with
    /// its session key, addressed to it.
    pub fn broadcast_snapshot(&self, tick: u64) -> (sends: Vec<Outgoing>)
        ensures
            sends@.map_values(|o: Outgoing| outgoing_view(o)) == snapshot_sends(
                tick,
                self.clients@,
            ),
    {
        let ghost cs = self.clients@;
        let pkt = self.snapshot(tick);
        let mut sends: Vec<Outgoing> = Vec::new();
        let mut i: usize = 0;
        while i < self.clients.len()
            invariant
                cs == self.clients@,
                i <= cs.len(),
                pkt@ == snapshot_bytes(tick, cs),
                sends@.map_values(|o: Outgoing| outgoing_view(o)) == authenticated(
                    cs.take(i as int),
                ).map_values(
                    |c: Client| (c.addr, signed_bytes(session_key_of(c), snapshot_bytes(tick, cs))),
                ),
            decreases cs.len() - i,
        {
            assert(cs.take(i + 1).drop_last() =~= cs.take(i as int));
            let c = &self.clients[i];
            let ghost prev = authenticated(cs.take(i as int));
            assert(cs.take(i + 1).last() == cs[i as int]);
            if let ClientState::Authenticated { session_key } = &c.state {
                assert(authenticated(cs.take(i + 1)) == prev.push(*c));
                let ghost before = sends@;
                let bytes = sign(session_key.as_slice(), pkt.as_slice());
                sends.push(Outgoing { to: c.addr, bytes });
                assert(session_key_of(*c) == session_key@);
                assert(sends@.map_values(|o: Outgoing| outgoing_view(o)) =~= before.map_values(
                    |o: Outgoing| outgoing_view(o),
                ).push((c.addr, signed_bytes(session_key_of(*c), snapshot_bytes(tick, cs)))));
                assert(prev.push(*c).map_values(
                    |c: Client| (c.addr, signed_bytes(session_key_of(c), snapshot_bytes(tick, cs))),
                ) =~= prev.map_values(
                    |c: Client| (c.addr, signed_bytes(session_key_of(c), snapshot_bytes(tick, cs))),
                ).push((c.addr, signed_bytes(session_key_of(*c), snapshot_bytes(tick, cs)))));
                assert(sends@.map_values(|o: Outgoing| outgoing_view(o)) =~= authenticated(
                    cs.take(i + 1),
                ).map_values(
                    |c: Client| (c.addr, signed_bytes(session_key_of(c), snapshot_bytes(tick, cs))),
                ));
            } else {
                assert(authenticated(cs.take(i + 1)) == prev);
            }
            i = i + 1;
        }
        assert(cs.take(i as int) =~= cs);
        sends
    }
}

} // verus!
