use chacha20poly1305::aead::Aead;
use chacha20poly1305::{KeyInit, XChaCha20Poly1305, XNonce};
use file_cipher::buffer::{decrypt_buffer, encrypt_buffer};
use file_cipher::error::CodecError;

fn bytes(len: usize) -> Vec<u8> {
    (0..len).map(|i| (i * 31 + 7) as u8).collect()
}

#[test]
fn buffer_round_trip() {
    let key = [9u8; 32];
    let nonce = [4u8; 24];
    for len in [0usize, 1, 500, 501, 1500, 100_000] {
        let plaintext = bytes(len);
        let ct = encrypt_buffer(&plaintext, &key, &nonce).unwrap();
        assert_eq!(ct.len(), len + 16);
        assert_eq!(decrypt_buffer(&ct, &key, &nonce).unwrap(), plaintext);
    }
}

#[test]
fn buffer_matches_cipher_and_changes_bytes() {
    let key = [1u8; 32];
    let nonce = [2u8; 24];
    let plaintext = vec![0u8; 64];
    let ct = encrypt_buffer(&plaintext, &key, &nonce).unwrap();
    assert_ne!(&ct[..64], &plaintext[..]);
    let cipher = XChaCha20Poly1305::new(key.as_ref().into());
    let direct = cipher.encrypt(XNonce::from_slice(&nonce), plaintext.as_ref()).unwrap();
    assert_eq!(ct, direct);
}

#[test]
fn buffer_deterministic() {
    let key = [3u8; 32];
    let nonce = [5u8; 24];
    let plaintext = bytes(777);
    assert_eq!(
        encrypt_buffer(&plaintext, &key, &nonce).unwrap(),
        encrypt_buffer(&plaintext, &key, &nonce).unwrap()
    );
}

#[test]
fn buffer_tamper_fails() {
    let key = [3u8; 32];
    let nonce = [5u8; 24];
    let ct = encrypt_buffer(&bytes(100), &key, &nonce).unwrap();
    for byte in 0..ct.len() {
        let mut bad = ct.clone();
        bad[byte] ^= 0x10;
        assert_eq!(decrypt_buffer(&bad, &key, &nonce), Err(CodecError::AuthenticationFailure));
    }
    assert_eq!(decrypt_buffer(&ct[..ct.len() - 1], &key, &nonce), Err(CodecError::AuthenticationFailure));
    assert_eq!(decrypt_buffer(&[], &key, &nonce), Err(CodecError::AuthenticationFailure));
}

#[test]
fn buffer_wrong_key_or_nonce_fails() {
    let key = [3u8; 32];
    let nonce = [5u8; 24];
    for len in [0usize, 1, 500] {
        let ct = encrypt_buffer(&bytes(len), &key, &nonce).unwrap();
        let mut k2 = key;
        k2[0] ^= 1;
        let mut n2 = nonce;
        n2[23] ^= 1;
        assert_eq!(decrypt_buffer(&ct, &k2, &nonce), Err(CodecError::AuthenticationFailure));
        assert_eq!(decrypt_buffer(&ct, &key, &n2), Err(CodecError::AuthenticationFailure));
    }
}

#[test]
fn buffer_empty_message_is_one_tag() {
    let key = [0u8; 32];
    let nonce = [0u8; 24];
    let ct = encrypt_buffer(&[], &key, &nonce).unwrap();
    assert_eq!(ct.len(), 16);
    assert_eq!(decrypt_buffer(&ct, &key, &nonce).unwrap(), Vec::<u8>::new());
}

#[test]
fn buffer_shorter_than_tag_fails() {
    let key = [0u8; 32];
    let nonce = [0u8; 24];
    for len in 0..16usize {
        assert_eq!(
            decrypt_buffer(&vec![0u8; len], &key, &nonce),
            Err(CodecError::AuthenticationFailure)
        );
    }
}
