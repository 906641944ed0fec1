use aegis_link::ack::ack_text;
use aegis_link::auth::{derive_session_key, sign, verify_and_strip};
use aegis_link::client::{ClientState, PeerAddr, PendingPacket};
use aegis_link::packet::{Packet, PacketType, FLAG_RELIABLE, FLAG_UNRELIABLE};
use aegis_link::receive::{Fresh, ServerEvent, WELCOME_SEQ};
use aegis_link::server::ServerState;
use std::time::Instant;

const SECRET: &[u8] = b"aegis-dev-secret";

fn addr(port: u16) -> PeerAddr {
    PeerAddr { ip: 0x7f000001, port, is_v6: false, flowinfo: 0, scope_id: 0 }
}

fn fresh(nonce: u8, id: u8) -> Fresh {
    Fresh { nonce: [nonce; 16], id: [id; 16], now: Instant::now(), rate_now: 0, event_now: 0 }
}

fn pkt(t: PacketType, seq: u32, payload: Vec<u8>) -> Vec<u8> {
    Packet { packet_type: t, sequence_number: seq, flags: FLAG_UNRELIABLE, payload }.to_bytes()
}

/// Connects and authenticates a client at `a`; returns its session key.
fn join(s: &mut ServerState, a: PeerAddr, tag: u8) -> [u8; 32] {
    let out = s.handle(&pkt(PacketType::Connection, 0, vec![]), a, SECRET, fresh(tag, tag));
    assert!(matches!(out.event, ServerEvent::Challenged));
    let key = derive_session_key(SECRET, &[tag; 16]);
    let out = s.handle(&pkt(PacketType::AuthResponse, 0, key.to_vec()), a, SECRET, fresh(0, 0));
    assert!(matches!(out.event, ServerEvent::Authenticated { .. }));
    key
}

#[test]
fn connection_is_challenged_with_the_nonce() {
    let mut s = ServerState::new();
    let out = s.handle(&pkt(PacketType::Connection, 3, vec![]), addr(1), SECRET, fresh(9, 4));
    assert!(matches!(out.event, ServerEvent::Challenged));
    let reply = out.reply.unwrap();
    let mut expected = vec![5, 0, 0, 0, 0, FLAG_UNRELIABLE];
    expected.extend_from_slice(&[9u8; 16]);
    assert_eq!(reply, expected);
    assert_eq!(s.clients.len(), 1);
    assert_eq!(s.clients[0].id, [4u8; 16]);
    assert!(matches!(s.clients[0].state, ClientState::Pending { nonce, .. } if nonce == [9u8; 16]));
    assert_eq!(s.count_pending(), 1);
}

#[test]
fn unknown_peer_must_connect_first() {
    let mut s = ServerState::new();
    let out = s.handle(&pkt(PacketType::PlayerPosition, 1, vec![0; 8]), addr(1), SECRET, fresh(1, 1));
    assert!(matches!(out.event, ServerEvent::DroppedFromUnknown));
    assert!(out.reply.is_none());
    assert!(s.clients.is_empty());
    let out = s.handle(&[0, 1], addr(1), SECRET, fresh(1, 1));
    assert!(matches!(out.event, ServerEvent::DroppedFromUnknown));
}

#[test]
fn right_answer_authenticates_and_welcomes() {
    let mut s = ServerState::new();
    let a = addr(2);
    s.handle(&pkt(PacketType::Connection, 0, vec![]), a, SECRET, fresh(0x11, 0xab));
    let key = derive_session_key(SECRET, &[0x11u8; 16]);
    let out = s.handle(&pkt(PacketType::AuthResponse, 0, key.to_vec()), a, SECRET, fresh(0, 0));
    assert!(matches!(out.event, ServerEvent::Authenticated { id } if id == [0xab; 16]));
    assert!(matches!(s.clients[0].state, ClientState::Authenticated { session_key } if session_key == key));
    let welcome = Packet::from_bytes(&out.reply.unwrap()).unwrap();
    assert!(matches!(welcome.packet_type, PacketType::GameEvent));
    assert_eq!(welcome.sequence_number, WELCOME_SEQ);
    assert_eq!(welcome.flags, FLAG_RELIABLE);
    assert_eq!(
        String::from_utf8(welcome.payload).unwrap(),
        "Welcome! Your ID is abababab-abab-abab-abab-abababababab"
    );
    assert_eq!(s.pending.len(), 1);
    assert_eq!(s.pending[0].seq, WELCOME_SEQ);
    assert_eq!(s.pending[0].retries, 0);
    assert_eq!(s.count_pending(), 0);
}

#[test]
fn wrong_answer_evicts() {
    let mut s = ServerState::new();
    let a = addr(3);
    s.handle(&pkt(PacketType::Connection, 0, vec![]), a, SECRET, fresh(1, 1));
    let wrong = derive_session_key(b"not-the-secret", &[1u8; 16]);
    let out = s.handle(&pkt(PacketType::AuthResponse, 0, wrong.to_vec()), a, SECRET, fresh(0, 0));
    assert!(matches!(out.event, ServerEvent::AuthFailed));
    assert!(s.clients.is_empty());
    // A short answer fails too.
    s.handle(&pkt(PacketType::Connection, 0, vec![]), a, SECRET, fresh(1, 1));
    let key = derive_session_key(SECRET, &[1u8; 16]);
    let out = s.handle(&pkt(PacketType::AuthResponse, 0, key[..31].to_vec()), a, SECRET, fresh(0, 0));
    assert!(matches!(out.event, ServerEvent::AuthFailed));
}

#[test]
fn pending_client_gets_the_same_challenge_again() {
    let mut s = ServerState::new();
    let a = addr(4);
    let first = s.handle(&pkt(PacketType::Connection, 0, vec![]), a, SECRET, fresh(3, 3)).reply;
    let again = s.handle(&pkt(PacketType::Connection, 0, vec![]), a, SECRET, fresh(4, 4));
    assert!(matches!(again.event, ServerEvent::ChallengeRepeated));
    assert_eq!(again.reply, first);
    let other = s.handle(&pkt(PacketType::GameEvent, 1, vec![]), a, SECRET, fresh(0, 0));
    assert!(matches!(other.event, ServerEvent::DroppedFromPending));
    assert_eq!(s.clients.len(), 1);
}

#[test]
fn signed_position_moves_the_player_and_replay_is_dropped() {
    let mut s = ServerState::new();
    let a = addr(5);
    let key = join(&mut s, a, 5);
    let mut payload = 1.5f32.to_be_bytes().to_vec();
    payload.extend_from_slice(&(-2.0f32).to_be_bytes());
    let raw = sign(&key, &pkt(PacketType::PlayerPosition, 10, payload));
    let out = s.handle(&raw, a, SECRET, fresh(0, 0));
    assert!(matches!(out.event, ServerEvent::PositionReported));
    assert!(out.reply.is_none());
    assert_eq!(f32::from_bits(s.clients[0].x), 1.5);
    assert_eq!(f32::from_bits(s.clients[0].y), -2.0);
    assert_eq!(s.clients[0].last_seq, 10);
    let out = s.handle(&raw, a, SECRET, fresh(0, 0));
    assert!(matches!(out.event, ServerEvent::Replayed { sequence_number: 10 }));
    assert!(out.reply.is_none());
    let older = sign(&key, &pkt(PacketType::PlayerPosition, 9, vec![0; 8]));
    let out = s.handle(&older, a, SECRET, fresh(0, 0));
    assert!(matches!(out.event, ServerEvent::Replayed { sequence_number: 9 }));
    assert_eq!(f32::from_bits(s.clients[0].x), 1.5);
}

#[test]
fn malformed_position_keeps_the_player_in_place() {
    let mut s = ServerState::new();
    let a = addr(6);
    let key = join(&mut s, a, 6);
    let raw = sign(&key, &pkt(PacketType::PlayerPosition, 1, vec![1, 2, 3]));
    let out = s.handle(&raw, a, SECRET, fresh(0, 0));
    assert!(matches!(out.event, ServerEvent::PositionReported));
    assert_eq!((s.clients[0].x, s.clients[0].y), (0, 0));
    assert_eq!(s.clients[0].last_seq, 1);
    let raw = sign(&key, &[1, 0, 0]);
    let out = s.handle(&raw, a, SECRET, fresh(0, 0));
    assert!(matches!(out.event, ServerEvent::Malformed));
}

#[test]
fn unsigned_or_forged_packets_are_dropped() {
    let mut s = ServerState::new();
    let a = addr(7);
    let key = join(&mut s, a, 7);
    let plain = pkt(PacketType::PlayerPosition, 1, vec![0; 8]);
    let out = s.handle(&plain, a, SECRET, fresh(0, 0));
    assert!(matches!(out.event, ServerEvent::TagRejected));
    let forged = sign(&[0u8; 32], &plain);
    let out = s.handle(&forged, a, SECRET, fresh(0, 0));
    assert!(matches!(out.event, ServerEvent::TagRejected));
    let mut tampered = sign(&key, &plain);
    tampered[5] ^= 1;
    let out = s.handle(&tampered, a, SECRET, fresh(0, 0));
    assert!(matches!(out.event, ServerEvent::TagRejected));
    assert_eq!(s.clients[0].last_seq, 0);
}

#[test]
fn reliable_event_is_acknowledged_and_logged() {
    let mut s = ServerState::new();
    let a = addr(8);
    let key = join(&mut s, a, 8);
    let raw = sign(&key, &pkt(PacketType::ChatMessages, 77, b"hello".to_vec()));
    let out = s.handle(&raw, a, SECRET, fresh(0, 0));
    assert_eq!(out.reply, Some(b"ACK:77".to_vec()));
    assert!(matches!(out.event, ServerEvent::Message { ref payload } if payload == b"hello"));
    assert_eq!(s.clients[0].last_seq, 77);
}

#[test]
fn ack_forgets_the_waiting_packet() {
    let mut s = ServerState::new();
    let a = addr(9);
    join(&mut s, a, 9);
    assert_eq!(s.pending.len(), 1);
    let out = s.handle(ack_text(2).as_bytes(), a, SECRET, fresh(0, 0));
    assert!(matches!(out.event, ServerEvent::Acknowledged { seq: Some(2) }));
    assert_eq!(s.pending.len(), 1);
    let out = s.handle(b"ACK: 1", addr(1000), SECRET, fresh(0, 0));
    assert!(matches!(out.event, ServerEvent::Acknowledged { seq: Some(1) }));
    assert!(s.pending.is_empty());
    let out = s.handle(b"ACK:oops", a, SECRET, fresh(0, 0));
    assert!(matches!(out.event, ServerEvent::Acknowledged { seq: None }));
}

#[test]
fn flooding_earns_strikes_and_a_kick() {
    let mut s = ServerState::new();
    let a = addr(10);
    let key = join(&mut s, a, 10);
    let mut seq = 1;
    for _ in 0..120 {
        let raw = sign(&key, &pkt(PacketType::PlayerPosition, seq, vec![0; 8]));
        let out = s.handle(&raw, a, SECRET, fresh(0, 0));
        assert!(matches!(out.event, ServerEvent::PositionReported));
        seq += 1;
    }
    for strike in 1u8..=3 {
        let raw = sign(&key, &pkt(PacketType::PlayerPosition, seq, vec![0; 8]));
        let out = s.handle(&raw, a, SECRET, fresh(0, 0));
        assert!(matches!(out.event, ServerEvent::RateLimited { strikes, kicked }
            if strikes == strike && kicked == (strike == 3)));
        seq += 1;
    }
    assert!(s.clients.is_empty());
}

#[test]
fn events_have_their_own_lower_limit() {
    let mut s = ServerState::new();
    let a = addr(11);
    let key = join(&mut s, a, 11);
    let mut seq = 1;
    for _ in 0..20 {
        let raw = sign(&key, &pkt(PacketType::GameEvent, seq, b"e".to_vec()));
        let out = s.handle(&raw, a, SECRET, fresh(0, 0));
        assert!(matches!(out.event, ServerEvent::Message { .. }));
        seq += 1;
    }
    let raw = sign(&key, &pkt(PacketType::GameEvent, seq, b"e".to_vec()));
    let out = s.handle(&raw, a, SECRET, fresh(0, 0));
    assert!(matches!(out.event, ServerEvent::RateLimited { strikes: 1, kicked: false }));
    assert!(out.reply.is_none());
    assert_eq!(s.clients[0].last_seq, 20);
    // A new window lets events through again.
    let mut f = fresh(0, 0);
    f.event_now = 1_000_000_000;
    let raw = sign(&key, &pkt(PacketType::GameEvent, seq + 1, b"e".to_vec()));
    let out = s.handle(&raw, a, SECRET, f);
    assert!(matches!(out.event, ServerEvent::Message { .. }));
}

#[test]
fn handle_datagram_draws_a_v4_uuid() {
    let mut s = ServerState::new();
    let out = s.handle_datagram(&pkt(PacketType::Connection, 0, vec![]), addr(12), SECRET);
    assert!(matches!(out.event, ServerEvent::Challenged));
    let id = s.clients[0].id;
    assert_eq!(id[6] >> 4, 4);
    assert_eq!(id[8] >> 6, 2);
    let nonce = match s.clients[0].state {
        ClientState::Pending { nonce, .. } => nonce,
        _ => panic!("not pending"),
    };
    let key = derive_session_key(SECRET, &nonce);
    let out = s.handle_datagram(&pkt(PacketType::AuthResponse, 0, key.to_vec()), addr(12), SECRET);
    assert!(matches!(out.event, ServerEvent::Authenticated { .. }));
}

#[test]
fn snapshot_lists_authenticated_players_and_is_signed_per_client() {
    let mut s = ServerState::new();
    let k1 = join(&mut s, addr(20), 1);
    s.handle(&pkt(PacketType::Connection, 0, vec![]), addr(21), SECRET, fresh(2, 2));
    let k3 = join(&mut s, addr(22), 3);
    let mut payload = 1.0f32.to_be_bytes().to_vec();
    payload.extend_from_slice(&2.0f32.to_be_bytes());
    s.handle(&sign(&k1, &pkt(PacketType::PlayerPosition, 1, payload)), addr(20), SECRET, fresh(0, 0));
    let tick: u64 = 0x1_0000_0005;
    let snap = s.snapshot(tick);
    let mut expected = vec![4, 0, 0, 0, 5, FLAG_UNRELIABLE];
    expected.extend_from_slice(&tick.to_be_bytes());
    expected.push(2);
    expected.extend_from_slice(&[1u8; 16]);
    expected.extend_from_slice(&1.0f32.to_be_bytes());
    expected.extend_from_slice(&2.0f32.to_be_bytes());
    expected.extend_from_slice(&[3u8; 16]);
    expected.extend_from_slice(&[0u8; 8]);
    assert_eq!(snap, expected);
    let sends = s.broadcast_snapshot(tick);
    assert_eq!(sends.len(), 2);
    assert_eq!(sends[0].to, addr(20));
    assert_eq!(verify_and_strip(&k1, &sends[0].bytes), Some(expected.clone()));
    assert_eq!(sends[1].to, addr(22));
    assert_eq!(verify_and_strip(&k3, &sends[1].bytes), Some(expected.clone()));
    assert_eq!(verify_and_strip(&k1, &sends[1].bytes), None);
}

fn waiting(seq: u32, retries: u32) -> PendingPacket {
    PendingPacket { data: vec![seq as u8], addr: addr(30), sent_at: Instant::now(), retries, seq }
}

#[test]
fn retransmit_resends_due_packets_and_gives_up_after_five() {
    let mut s = ServerState::new();
    s.pending.push(waiting(1, 0));
    s.pending.push(waiting(2, 5));
    s.pending.push(waiting(3, 4));
    s.pending.push(waiting(4, 0));
    let now = Instant::now();
    let report = s.retransmit_aged(&vec![100, 250, 100, 99], now);
    assert_eq!(report.resend.len(), 2);
    assert_eq!(report.resend[0].bytes, vec![1]);
    assert_eq!(report.resend[1].bytes, vec![3]);
    assert_eq!(report.gave_up, vec![(2, addr(30))]);
    let seqs: Vec<(u32, u32)> = s.pending.iter().map(|p| (p.seq, p.retries)).collect();
    assert_eq!(seqs, vec![(1, 1), (3, 5), (4, 0)]);
    let report = s.retransmit_due();
    assert!(report.resend.is_empty() && report.gave_up.is_empty());
}

#[test]
fn eviction_removes_only_stale_pending_clients() {
    let mut s = ServerState::new();
    join(&mut s, addr(40), 1);
    s.handle(&pkt(PacketType::Connection, 0, vec![]), addr(41), SECRET, fresh(2, 2));
    s.handle(&pkt(PacketType::Connection, 0, vec![]), addr(42), SECRET, fresh(3, 3));
    s.evict_aged(&vec![100, 5, 4]);
    let left: Vec<u16> = s.clients.iter().map(|c| c.addr.port).collect();
    assert_eq!(left, vec![40, 42]);
    s.evict_stale_pending();
    assert_eq!(s.clients.len(), 2);
}

#[test]
fn update_position_player_needs_eight_bytes_and_a_client() {
    let mut s = ServerState::new();
    join(&mut s, addr(50), 1);
    s.update_position_player(addr(50), &[0, 0, 0, 1, 0, 0, 0, 2]);
    assert_eq!((s.clients[0].x, s.clients[0].y), (1, 2));
    s.update_position_player(addr(50), &[0, 0, 0, 3]);
    s.update_position_player(addr(51), &[0, 0, 0, 4, 0, 0, 0, 4]);
    assert_eq!((s.clients[0].x, s.clients[0].y), (1, 2));
    assert_eq!(s.find_client(addr(50)), Some(0));
    assert_eq!(s.find_client(addr(51)), None);
}

#[test]
fn position_flood_leaves_chat_through() {
    let mut s = ServerState::new();
    let a = addr(40);
    let key = join(&mut s, a, 40);
    let mut seq = 1;
    for _ in 0..120 {
        let raw = sign(&key, &pkt(PacketType::PlayerPosition, seq, vec![0; 8]));
        s.handle(&raw, a, SECRET, fresh(0, 0));
        seq += 1;
    }
    let raw = sign(&key, &pkt(PacketType::ChatMessages, seq, b"hi".to_vec()));
    let out = s.handle(&raw, a, SECRET, fresh(0, 0));
    assert!(matches!(out.event, ServerEvent::Message { .. }));
    seq += 1;
    let raw = sign(&key, &pkt(PacketType::PlayerPosition, seq, vec![0; 8]));
    let out = s.handle(&raw, a, SECRET, fresh(0, 0));
    assert!(matches!(out.event, ServerEvent::RateLimited { strikes: 1, kicked: false }));
}

#[test]
fn a_second_later_positions_pass_again() {
    let mut s = ServerState::new();
    let a = addr(41);
    let key = join(&mut s, a, 41);
    let mut seq = 1;
    for _ in 0..121 {
        let raw = sign(&key, &pkt(PacketType::PlayerPosition, seq, vec![0; 8]));
        s.handle(&raw, a, SECRET, fresh(0, 0));
        seq += 1;
    }
    assert_eq!(s.clients[0].rate.strikes(), 1);
    let mut f = fresh(0, 0);
    f.rate_now = 1_000_000_000;
    let raw = sign(&key, &pkt(PacketType::PlayerPosition, seq, vec![0; 8]));
    let out = s.handle(&raw, a, SECRET, f);
    assert!(matches!(out.event, ServerEvent::PositionReported));
    assert_eq!(s.clients[0].rate.strikes(), 1);
}

#[test]
fn other_packets_share_the_position_limit() {
    let mut s = ServerState::new();
    let a = addr(42);
    let key = join(&mut s, a, 42);
    for seq in 1..=120u32 {
        let raw = sign(&key, &pkt(PacketType::Snapshot, seq, vec![]));
        let out = s.handle(&raw, a, SECRET, fresh(0, 0));
        assert!(matches!(out.event, ServerEvent::Ignored));
    }
    let raw = sign(&key, &pkt(PacketType::Snapshot, 121, vec![]));
    let out = s.handle(&raw, a, SECRET, fresh(0, 0));
    assert!(matches!(out.event, ServerEvent::RateLimited { strikes: 1, kicked: false }));
    assert_eq!(s.clients[0].event_rate.strikes(), 0);
}

#[test]
fn malformed_and_replayed_packets_are_counted() {
    let mut s = ServerState::new();
    let a = addr(43);
    let key = join(&mut s, a, 43);
    let raw = sign(&key, &pkt(PacketType::PlayerPosition, 5, vec![0; 8]));
    let out = s.handle(&raw, a, SECRET, fresh(0, 0));
    assert!(matches!(out.event, ServerEvent::PositionReported));
    for _ in 0..59 {
        let out = s.handle(&raw, a, SECRET, fresh(0, 0));
        assert!(matches!(out.event, ServerEvent::Replayed { sequence_number: 5 }));
        let out = s.handle(&sign(&key, &[1, 2]), a, SECRET, fresh(0, 0));
        assert!(matches!(out.event, ServerEvent::Malformed));
    }
    let out = s.handle(&raw, a, SECRET, fresh(0, 0));
    assert!(matches!(out.event, ServerEvent::Replayed { sequence_number: 5 }));
    let out = s.handle(&raw, a, SECRET, fresh(0, 0));
    assert!(matches!(out.event, ServerEvent::RateLimited { strikes: 1, kicked: false }));
    assert_eq!(s.clients[0].last_seq, 5);
}
