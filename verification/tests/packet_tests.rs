use aegis_link::packet::{Packet, PacketType, FLAG_ORDERED, FLAG_RELIABLE, FLAG_UNRELIABLE};

#[test]
fn to_bytes_lays_out_header() {
    let p = Packet {
        packet_type: PacketType::GameEvent,
        sequence_number: 0x01020304,
        flags: FLAG_RELIABLE,
        payload: vec![9, 8],
    };
    assert_eq!(p.to_bytes(), vec![2, 1, 2, 3, 4, 1, 9, 8]);
}

#[test]
fn from_bytes_reads_header_and_payload() {
    let p = Packet::from_bytes(&[3, 0, 0, 1, 0, 0xff, 7]).unwrap();
    assert!(matches!(p.packet_type, PacketType::ChatMessages));
    assert_eq!(p.sequence_number, 256);
    assert_eq!(p.flags, FLAG_ORDERED);
    assert_eq!(p.payload, vec![7]);
    assert!(p.is_reliable());
}

#[test]
fn from_bytes_rejects_short_and_unknown() {
    assert!(Packet::from_bytes(&[1, 0, 0, 0, 1]).is_none());
    assert!(Packet::from_bytes(&[7, 0, 0, 0, 1, 0]).is_none());
    let p = Packet::from_bytes(&[1, 0, 0, 0, 1, 1]).unwrap();
    assert_eq!(p.flags, FLAG_UNRELIABLE);
    assert!(!p.is_reliable());
    assert!(p.payload.is_empty());
}

#[test]
fn encoding_then_parsing_gives_the_packet_back() {
    for (t, flags) in [
        (PacketType::Connection, FLAG_UNRELIABLE),
        (PacketType::PlayerPosition, FLAG_UNRELIABLE),
        (PacketType::GameEvent, FLAG_RELIABLE),
        (PacketType::ChatMessages, FLAG_ORDERED),
        (PacketType::Snapshot, FLAG_UNRELIABLE),
        (PacketType::AuthChallenge, FLAG_UNRELIABLE),
        (PacketType::AuthResponse, FLAG_UNRELIABLE),
    ] {
        let p = Packet { packet_type: t, sequence_number: 0xdeadbeef, flags, payload: vec![1, 2, 3] };
        let q = Packet::from_bytes(&p.to_bytes()).unwrap();
        assert_eq!(q.packet_type, p.packet_type);
        assert_eq!(q.sequence_number, p.sequence_number);
        assert_eq!(q.flags, p.flags);
        assert_eq!(q.payload, p.payload);
    }
}

#[test]
fn the_flags_byte_is_not_trusted() {
    let p = Packet::from_bytes(&[1, 0, 0, 0, 9, FLAG_RELIABLE, 5]).unwrap();
    assert_eq!(p.flags, FLAG_UNRELIABLE);
    assert!(!p.is_reliable());
    let p = Packet::from_bytes(&[2, 0, 0, 0, 9, FLAG_UNRELIABLE]).unwrap();
    assert!(p.is_reliable());
}

#[test]
fn is_reliable_reads_the_low_bit() {
    for (flags, reliable) in [(0u8, false), (1, true), (2, false), (3, true), (255, true)] {
        let p = Packet { packet_type: PacketType::Snapshot, sequence_number: 0, flags, payload: vec![] };
        assert_eq!(p.is_reliable(), reliable);
    }
}
