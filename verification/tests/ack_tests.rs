use aegis_link::ack::{ack_text, parse_ack, AckParse};

#[test]
fn ack_text_is_decimal() {
    assert_eq!(ack_text(0), "ACK:0");
    assert_eq!(ack_text(42), "ACK:42");
    assert_eq!(ack_text(u32::MAX), "ACK:4294967295");
}

#[test]
fn ack_text_reads_back() {
    for seq in [0u32, 1, 9, 10, 12345, u32::MAX] {
        assert_eq!(parse_ack(ack_text(seq).as_bytes()), AckParse::Ack(Some(seq)));
    }
}

#[test]
fn parses_like_trim_then_parse() {
    assert_eq!(parse_ack(b"ACK:42"), AckParse::Ack(Some(42)));
    assert_eq!(parse_ack(b"ACK: 7 \n"), AckParse::Ack(Some(7)));
    assert_eq!(parse_ack(b"ACK:+5"), AckParse::Ack(Some(5)));
    assert_eq!(parse_ack(b"ACK:007"), AckParse::Ack(Some(7)));
    assert_eq!(parse_ack("ACK:\u{a0}9\u{3000}".as_bytes()), AckParse::Ack(Some(9)));
}

#[test]
fn bad_numbers_are_still_acks() {
    assert_eq!(parse_ack(b"ACK:"), AckParse::Ack(None));
    assert_eq!(parse_ack(b"ACK:x"), AckParse::Ack(None));
    assert_eq!(parse_ack(b"ACK:+"), AckParse::Ack(None));
    assert_eq!(parse_ack(b"ACK:-1"), AckParse::Ack(None));
    assert_eq!(parse_ack(b"ACK:4294967296"), AckParse::Ack(None));
    assert_eq!(parse_ack(b"ACK:1 2"), AckParse::Ack(None));
    assert_eq!(parse_ack("ACK:\u{e9}".as_bytes()), AckParse::Ack(None));
}

#[test]
fn other_datagrams_are_not_acks() {
    assert_eq!(parse_ack(b""), AckParse::NotAck);
    assert_eq!(parse_ack(b"ACK"), AckParse::NotAck);
    assert_eq!(parse_ack(b"ack:1"), AckParse::NotAck);
    assert_eq!(parse_ack(b" ACK:1"), AckParse::NotAck);
    assert_eq!(parse_ack(&[65, 67, 75, 58, 0xff]), AckParse::NotAck);
    assert_eq!(parse_ack(&[2, 0, 0, 0, 1, 1]), AckParse::NotAck);
}
