//! HMAC-SHA256 helpers for the challenge-response handshake and for the
//! integrity tag that every post-handshake packet carries.

use hmac::{Hmac, Mac};
use rand::RngCore;
use sha2::Sha256;
use vstd::prelude::*;

verus! {

/// Length of an HMAC-SHA256 tag, and of a session key.
pub const HMAC_LEN: usize = 32usize;

/// Length of a handshake nonce.
pub const NONCE_LEN: usize = 16usize;

/// HMAC-SHA256 (RFC 2104 over SHA-256) of `msg` under `key`, as the `hmac` and
/// `sha2` crates compute it.
pub uninterp spec fn hmac_sha256(key: Seq<u8>, msg: Seq<u8>) -> [u8; 32];

/// Fills `buf` from the thread-local random generator of `rand`
/// (`rand::thread_rng().fill_bytes`). What it writes is chance: nothing is
/// stated of it.
#[verifier::external_body]
fn fill_random(buf: &mut [u8; 16]) {
    rand::thread_rng().fill_bytes(buf);
}

/// Computes the HMAC-SHA256 tag of `msg` under `key` with
/// `Hmac::<Sha256>::new_from_slice`, `update` and `finalize`. The contract
/// claims the tag is `hmac_sha256(key, msg)`. `new_from_slice` accepts keys of
/// every length (longer keys are hashed first), so the `expect` never fires.
#[verifier::external_body]
fn hmac_sha256_tag(key: &[u8], msg: &[u8]) -> (tag: [u8; 32])
    ensures
        tag == hmac_sha256(key@, msg@),
{
    let mut mac = Hmac::<Sha256>::new_from_slice(key).expect("HMAC accepts any key length");
    mac.update(msg);
    mac.finalize().into_bytes().into()
}

/// Checks `tag` against the HMAC-SHA256 of `msg` under `key` with
/// `Mac::verify_slice`, a constant-time comparison that also fails when `tag`
/// is not 32 bytes long. The contract claims success exactly when `tag` equals
/// `hmac_sha256(key, msg)`.
#[verifier::external_body]
fn hmac_sha256_verify(key: &[u8], msg: &[u8], tag: &[u8]) -> (ok: bool)
    ensures
        ok == (tag@ == hmac_sha256(key@, msg@)@),
{
    let mut mac = Hmac::<Sha256>::new_from_slice(key).expect("HMAC accepts any key length");
    mac.update(msg);
    mac.verify_slice(tag).is_ok()
}

/// A packet followed by its 32-byte tag under `key`.
pub open spec fn signed_bytes(key: Seq<u8>, msg: Seq<u8>) -> Seq<u8> {
    msg + hmac_sha256(key, msg)@
}

/// The packet bytes in front of a valid trailing tag, if `raw` ends in one.
pub open spec fn verified_payload(key: Seq<u8>, raw: Seq<u8>) -> Option<Seq<u8>> {
    if raw.len() < HMAC_LEN {
        None
    } else {
        let body = raw.take(raw.len() - HMAC_LEN);
        let tag = raw.skip(raw.len() - HMAC_LEN);
        if tag == hmac_sha256(key, body)@ {
            Some(body)
        } else {
            None
        }
    }
}

/// The byte sequence held by an optional vector.
pub open spec fn option_bytes_view(v: Option<Vec<u8>>) -> Option<Seq<u8>> {
    match v {
        Some(v) => Some(v@),
        None => None,
    }
}

/// A fresh random handshake nonce.
pub fn generate_nonce() -> (nonce: [u8; 16]) {
    let mut nonce = [0u8; 16];
    fill_random(&mut nonce);
    nonce
}

/// The session key of a handshake: HMAC-SHA256 of the nonce under the shared
/// secret. The client sends this value as its answer, and the server keeps it
/// as the session key.
pub fn derive_session_key(shared_secret: &[u8], nonce: &[u8]) -> (key: [u8; 32])
    ensures
        key == hmac_sha256(shared_secret@, nonce@),
{
    hmac_sha256_tag(shared_secret, nonce)
}

/// Appends the 32-byte HMAC-SHA256 tag of `packet_bytes` under `session_key`.
pub fn sign(session_key: &[u8], packet_bytes: &[u8]) -> (signed: Vec<u8>)
    ensures
        signed@ == signed_bytes(session_key@, packet_bytes@),
{
    let tag = hmac_sha256_tag(session_key, packet_bytes);
    let mut out = vstd::slice::slice_to_vec(packet_bytes);
    out.extend_from_slice(tag.as_slice());
    assert(out@ =~= signed_bytes(session_key@, packet_bytes@));
    out
}

/// Checks the trailing 32-byte tag of `raw` under `session_key` and returns the
/// bytes in front of it; `None` on a buffer shorter than a tag or on a tag
/// mismatch.
pub fn verify_and_strip(session_key: &[u8], raw: &[u8]) -> (r: Option<Vec<u8>>)
    ensures
        option_bytes_view(r) == verified_payload(session_key@, raw@),
{
    if raw.len() < HMAC_LEN {
        return None;
    }
    let (packet_bytes, tag) = raw.split_at(raw.len() - HMAC_LEN);
    if !hmac_sha256_verify(session_key, packet_bytes, tag) {
        return None;
    }
    Some(vstd::slice::slice_to_vec(packet_bytes))
}

/// Every signed packet passes verification, which gives back the packet.
pub proof fn lemma_verify_signed(key: Seq<u8>, msg: Seq<u8>)
    ensures
        verified_payload(key, signed_bytes(key, msg)) == Some(msg),
{
    let raw = signed_bytes(key, msg);
    let tag = hmac_sha256(key, msg)@;
    assert(tag.len() == 32);
    assert(raw.take(raw.len() - HMAC_LEN) =~= msg);
    assert(raw.skip(raw.len() - HMAC_LEN) =~= tag);
}

/// Verification accepts exactly the signed packets: `raw` passes with the
/// bytes `msg` if and only if `raw` is `msg` signed under the same key.
pub proof fn lemma_verified_iff_signed(key: Seq<u8>, raw: Seq<u8>, msg: Seq<u8>)
    ensures
        verified_payload(key, raw) == Some(msg) <==> raw == signed_bytes(key, msg),
{
    if raw == signed_bytes(key, msg) {
        lemma_verify_signed(key, msg);
    }
    if verified_payload(key, raw) == Some(msg) {
        assert(raw =~= signed_bytes(key, msg));
    }
}

} // verus!
