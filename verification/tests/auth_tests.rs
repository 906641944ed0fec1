use aegis_link::auth::{derive_session_key, generate_nonce, sign, verify_and_strip, HMAC_LEN, NONCE_LEN};

fn hex(bytes: &[u8]) -> String {
    bytes.iter().map(|b| format!("{:02x}", b)).collect()
}

#[test]
fn session_key_is_hmac_sha256_of_nonce() {
    // RFC 4231, test case 2.
    let key = derive_session_key(b"Jefe", b"what do ya want for nothing?");
    assert_eq!(
        hex(&key),
        "5bdcc146bf60754e6a042426089575c75a003f089d2739839dec58b964ec3843"
    );
}

#[test]
fn sign_appends_the_tag() {
    let signed = sign(b"Jefe", b"what do ya want for nothing?");
    assert_eq!(signed.len(), 28 + HMAC_LEN);
    assert_eq!(&signed[..28], b"what do ya want for nothing?");
    assert_eq!(
        hex(&signed[28..]),
        "5bdcc146bf60754e6a042426089575c75a003f089d2739839dec58b964ec3843"
    );
}

#[test]
fn verify_and_strip_gives_back_signed_bytes() {
    let key = [7u8; 32];
    let msg = vec![1u8, 0, 0, 0, 5, 0, 1, 2, 3];
    let signed = sign(&key, &msg);
    assert_eq!(verify_and_strip(&key, &signed), Some(msg.clone()));
    let empty = sign(&key, &[]);
    assert_eq!(verify_and_strip(&key, &empty), Some(vec![]));
}

#[test]
fn verify_and_strip_rejects_tampering() {
    let key = [7u8; 32];
    let msg = vec![1u8, 2, 3];
    let mut signed = sign(&key, &msg);
    signed[0] ^= 1;
    assert_eq!(verify_and_strip(&key, &signed), None);
    let mut signed = sign(&key, &msg);
    let last = signed.len() - 1;
    signed[last] ^= 0x80;
    assert_eq!(verify_and_strip(&key, &signed), None);
    let signed = sign(&key, &msg);
    assert_eq!(verify_and_strip(&[8u8; 32], &signed), None);
}

#[test]
fn verify_and_strip_rejects_short_buffers() {
    assert_eq!(verify_and_strip(&[1u8; 32], &[0u8; 31]), None);
    assert_eq!(verify_and_strip(&[1u8; 32], &[]), None);
    // Exactly a tag long: the packet in front of it is empty.
    assert_eq!(verify_and_strip(&[1u8; 32], &[0u8; 32]), None);
}

#[test]
fn nonces_have_their_length_and_differ() {
    let a = generate_nonce();
    let b = generate_nonce();
    assert_eq!(a.len(), NONCE_LEN);
    assert_ne!(a, b);
}
