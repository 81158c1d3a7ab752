use proteus_core::sealer::{decrypt, encrypt, seal_then_unseal, SealError};

fn key_a() -> Vec<u8> {
    vec![7u8; 32]
}

fn key_b() -> Vec<u8> {
    vec![8u8; 32]
}

#[test]
fn seal_round_trip() {
    let plaintext = b"attack at dawn".to_vec();
    let blob = encrypt(&plaintext, &key_a());
    assert_eq!(blob.len(), plaintext.len() + 40);
    assert_eq!(decrypt(&blob, &key_a()), Ok(plaintext));
}

#[test]
fn seal_round_trip_empty() {
    let plaintext = Vec::new();
    let blob = encrypt(&plaintext, &key_a());
    assert_eq!(blob.len(), 40);
    assert_eq!(decrypt(&blob, &key_a()), Ok(plaintext));
}

#[test]
fn wrong_key_fails_closed() {
    let blob = encrypt(&b"secret".to_vec(), &key_a());
    assert_eq!(decrypt(&blob, &key_b()), Err(SealError::AuthenticationFailure));
}

#[test]
fn flipped_ciphertext_byte_fails_closed() {
    let blob = encrypt(&b"secret".to_vec(), &key_a());
    for i in 0..blob.len() {
        let mut tampered = blob.clone();
        tampered[i] ^= 0x01;
        assert_eq!(decrypt(&tampered, &key_a()), Err(SealError::AuthenticationFailure));
    }
}

#[test]
fn short_blob_fails_closed() {
    assert_eq!(decrypt(&vec![], &key_a()), Err(SealError::AuthenticationFailure));
    assert_eq!(decrypt(&vec![0u8; 23], &key_a()), Err(SealError::AuthenticationFailure));
    assert_eq!(decrypt(&vec![0u8; 39], &key_a()), Err(SealError::AuthenticationFailure));
}

#[test]
fn nonce_is_fresh_per_message() {
    let plaintext = b"same message".to_vec();
    let blob1 = encrypt(&plaintext, &key_a());
    let blob2 = encrypt(&plaintext, &key_a());
    assert_ne!(&blob1[..24], &blob2[..24]);
    assert_eq!(decrypt(&blob1, &key_a()), Ok(plaintext.clone()));
    assert_eq!(decrypt(&blob2, &key_a()), Ok(plaintext));
}

#[test]
fn seal_then_unseal_is_identity() {
    let plaintext = b"PROTEUS_SECRET: hello".to_vec();
    assert_eq!(seal_then_unseal(&plaintext, &key_a()), plaintext);
}
