//! Authenticated sealing of payloads: XChaCha20-Poly1305 under a fresh
//! random 24-byte nonce per message, transported as `nonce ‖ ciphertext`.

use crate::subvec;
use chacha20poly1305::aead::{Aead, KeyInit};
use chacha20poly1305::{XChaCha20Poly1305, XNonce};
use vstd::prelude::*;

verus! {

/// Bytes of the random nonce leading every sealed blob.
pub const NONCE_LEN: usize = 24;

/// Bytes of the authentication tag trailing every ciphertext.
pub const TAG_LEN: usize = 16;

/// Bytes a sealed blob adds on top of its plaintext: nonce plus tag.
pub const SEAL_OVERHEAD: usize = 40;

/// The ciphertext (tag included) that XChaCha20-Poly1305 produces for a
/// given key, nonce and message. A function of those three alone.
pub uninterp spec fn sealed_of(key: Seq<u8>, nonce: Seq<u8>, msg: Seq<u8>) -> Seq<u8>;

/// `blob` is `nonce ‖ ciphertext` where the ciphertext seals `msg` under
/// `key` and that nonce.
pub open spec fn unseals_to(blob: Seq<u8>, key: Seq<u8>, msg: Seq<u8>) -> bool {
    blob.len() == msg.len() + SEAL_OVERHEAD && blob.skip(NONCE_LEN as int) == sealed_of(
        key,
        blob.take(NONCE_LEN as int),
        msg,
    )
}

/// Failure of the sealing layer: the blob was too short or its tag did not
/// verify; nothing of the plaintext is revealed.
#[derive(Debug, Clone, Copy, PartialEq, Eq, Structural)]
pub enum SealError {
    AuthenticationFailure,
}

/// Relies on chacha20poly1305's XChaCha20Poly1305: encryption appends a
/// 16-byte Poly1305 tag, and the result is a function of key, nonce and
/// message alone.
#[verifier::external_body]
fn aead_seal(key: &Vec<u8>, nonce: &Vec<u8>, msg: &Vec<u8>) -> (r: Vec<u8>)
    requires
        key@.len() == 32,
        nonce@.len() == NONCE_LEN,
        msg@.len() <= 0xFFFF_FFFF,
    ensures
        r@ == sealed_of(key@, nonce@, msg@),
        r@.len() == msg@.len() + TAG_LEN,
{
    let cipher = match XChaCha20Poly1305::new_from_slice(key.as_slice()) {
        Ok(c) => c,
        Err(_) => return Vec::new(),
    };
    let nonce = match XNonce::try_from(nonce.as_slice()) {
        Ok(n) => n,
        Err(_) => return Vec::new(),
    };
    cipher.encrypt(&nonce, msg.as_slice()).unwrap_or_default()
}

/// Relies on chacha20poly1305's XChaCha20Poly1305: decryption returns the
/// sealed message when the tag verifies and fails otherwise, never yielding
/// partial plaintext.
#[verifier::external_body]
fn aead_open(key: &Vec<u8>, nonce: &Vec<u8>, ct: &Vec<u8>) -> (r: Option<Vec<u8>>)
    requires
        key@.len() == 32,
        nonce@.len() == NONCE_LEN,
    ensures
        forall|m: Seq<u8>| ct@ == sealed_of(key@, nonce@, m) ==> (r is Some && r.unwrap()@ == m),
        r is Some ==> ct@ == sealed_of(key@, nonce@, r.unwrap()@) && ct@.len() == r.unwrap()@.len()
            + TAG_LEN,
{
    let cipher = match XChaCha20Poly1305::new_from_slice(key.as_slice()) {
        Ok(c) => c,
        Err(_) => return None,
    };
    let nonce = match XNonce::try_from(nonce.as_slice()) {
        Ok(n) => n,
        Err(_) => return None,
    };
    cipher.decrypt(&nonce, ct.as_slice()).ok()
}

/// Relies on rand's thread-local generator: 24 freshly drawn random bytes;
/// nothing further can be promised of a random value.
#[verifier::external_body]
fn fresh_nonce() -> (r: Vec<u8>)
    ensures
        r@.len() == NONCE_LEN,
{
    rand::random::<[u8; 24]>().to_vec()
}

/// Seal a payload under `key` with a fresh random nonce; the result is
/// `nonce ‖ ciphertext` and unseals back to exactly the payload.
pub fn encrypt(plaintext: &Vec<u8>, key: &Vec<u8>) -> (r: Vec<u8>)
    requires
        key@.len() == 32,
        plaintext@.len() <= 0xFFFF_FFFF,
    ensures
        unseals_to(r@, key@, plaintext@),
        r@.len() == plaintext@.len() + SEAL_OVERHEAD,
{
    let nonce = fresh_nonce();
    let mut ct = aead_seal(key, &nonce, plaintext);
    let ghost n = nonce@;
    let ghost c = ct@;
    let mut blob = nonce;
    blob.append(&mut ct);
    proof {
        assert(blob@ == n + c);
        assert(blob@.take(NONCE_LEN as int) =~= n);
        assert(blob@.skip(NONCE_LEN as int) =~= c);
    }
    blob
}

/// Open a sealed blob: split off the 24-byte nonce, verify and strip the
/// tag, and return the plaintext. Fails closed with `AuthenticationFailure`
/// on a short blob or a tag mismatch, and succeeds on every blob that seals
/// some message under `key`.
pub fn decrypt(blob: &Vec<u8>, key: &Vec<u8>) -> (r: Result<Vec<u8>, SealError>)
    requires
        key@.len() == 32,
    ensures
        forall|m: Seq<u8>| unseals_to(blob@, key@, m) ==> (r is Ok && r.unwrap()@ == m),
        r is Ok ==> unseals_to(blob@, key@, r.unwrap()@),
        r is Err ==> r == Err::<Vec<u8>, SealError>(SealError::AuthenticationFailure),
        blob@.len() < SEAL_OVERHEAD ==> r is Err,
{
    if blob.len() < NONCE_LEN {
        return Err(SealError::AuthenticationFailure);
    }
    let nonce = subvec(blob, 0, NONCE_LEN);
    let ct = subvec(blob, NONCE_LEN, blob.len());
    proof {
        assert(nonce@ =~= blob@.take(NONCE_LEN as int));
        assert(ct@ =~= blob@.skip(NONCE_LEN as int));
    }
    match aead_open(key, &nonce, &ct) {
        Some(m) => {
            proof {
                assert(unseals_to(blob@, key@, m@));
            }
            Ok(m)
        },
        None => Err(SealError::AuthenticationFailure),
    }
}

/// Sealing a payload and opening the result returns the payload unchanged,
/// whatever nonce was drawn.
pub fn seal_then_unseal(plaintext: &Vec<u8>, key: &Vec<u8>) -> (r: Vec<u8>)
    requires
        key@.len() == 32,
        plaintext@.len() <= 0xFFFF_FFFF,
    ensures
        r@ == plaintext@,
{
    let blob = encrypt(plaintext, key);
    match decrypt(&blob, key) {
        Ok(m) => m,
        Err(_) => {
            proof {
                assert(unseals_to(blob@, key@, plaintext@));
                assert(false);
            }
            Vec::new()
        },
    }
}

} // verus!
