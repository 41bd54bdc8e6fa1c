use chacha20poly1305::aead::stream::{DecryptorBE32, EncryptorBE32};
use chacha20poly1305::{KeyInit, XChaCha20Poly1305};
use file_cipher::error::CodecError;
use file_cipher::stream::{
    decrypt_stream, encrypt_stream, ChunkDecryptor, ChunkEncryptor, CHUNK_SIZE, SEGMENT_LEN,
};

fn pseudo_random_bytes(len: usize, seed: u32) -> Vec<u8> {
    let mut state = seed;
    let mut out = Vec::with_capacity(len);
    for _ in 0..len {
        state = state.wrapping_mul(1_103_515_245).wrapping_add(12_345);
        out.push((state >> 16) as u8);
    }
    out
}

fn key_a() -> [u8; 32] {
    let mut k = [0u8; 32];
    for (i, b) in k.iter_mut().enumerate() {
        *b = i as u8;
    }
    k
}

fn prefix_a() -> [u8; 19] {
    let mut n = [0u8; 19];
    for (i, b) in n.iter_mut().enumerate() {
        *b = 0xA0 ^ i as u8;
    }
    n
}

fn segment_lengths(ciphertext_len: usize) -> Vec<usize> {
    let mut lens = vec![SEGMENT_LEN; ciphertext_len / SEGMENT_LEN];
    lens.push(ciphertext_len % SEGMENT_LEN);
    lens
}

#[test]
fn scenario_1024_zero_bytes() {
    let key = [0u8; 32];
    let prefix = [0u8; 19];
    let plaintext = vec![0u8; 1024];
    let ct = encrypt_stream(&plaintext, &key, &prefix).unwrap();
    assert_eq!(ct.len(), 1072);
    assert_eq!(segment_lengths(ct.len()), vec![516, 516, 40]);
    assert_ne!(&ct[..500], &plaintext[..500]);
    assert_eq!(decrypt_stream(&ct, &key, &prefix).unwrap(), plaintext);
}

#[test]
fn matches_aead_stream_be32() {
    let key = key_a();
    let prefix = prefix_a();
    for len in [0usize, 1, 499, 500, 501, 1000, 1024, 2048] {
        let plaintext = pseudo_random_bytes(len, len as u32 + 7);
        let ours = encrypt_stream(&plaintext, &key, &prefix).unwrap();

        let aead = XChaCha20Poly1305::new(key.as_ref().into());
        let mut enc = EncryptorBE32::from_aead(aead, prefix.as_ref().into());
        let mut theirs = Vec::new();
        let mut chunks = plaintext.chunks_exact(CHUNK_SIZE);
        for chunk in chunks.by_ref() {
            theirs.extend(enc.encrypt_next(chunk).unwrap());
        }
        theirs.extend(enc.encrypt_last(chunks.remainder()).unwrap());
        assert_eq!(ours, theirs, "length {}", len);

        let aead = XChaCha20Poly1305::new(key.as_ref().into());
        let mut dec = DecryptorBE32::from_aead(aead, prefix.as_ref().into());
        let mut back = Vec::new();
        let mut segs = ours.chunks_exact(SEGMENT_LEN);
        for seg in segs.by_ref() {
            back.extend(dec.decrypt_next(seg).unwrap());
        }
        back.extend(dec.decrypt_last(segs.remainder()).unwrap());
        assert_eq!(back, plaintext);
    }
}

#[test]
fn round_trip_all_sizes() {
    let key = key_a();
    let prefix = prefix_a();
    for len in [0usize, 1, 499, 500, 501, 1000, 1499, 1500, 2500, 7919, 65_537] {
        let plaintext = pseudo_random_bytes(len, 99 + len as u32);
        let ct = encrypt_stream(&plaintext, &key, &prefix).unwrap();
        assert_eq!(ct.len(), len + 16 * (len / CHUNK_SIZE + 1));
        assert_eq!(decrypt_stream(&ct, &key, &prefix).unwrap(), plaintext, "length {}", len);
    }
}

#[test]
fn boundary_segment_counts() {
    let key = key_a();
    let prefix = prefix_a();
    let empty = encrypt_stream(&[], &key, &prefix).unwrap();
    assert_eq!(segment_lengths(empty.len()), vec![16]);
    let one_chunk = encrypt_stream(&vec![7u8; 500], &key, &prefix).unwrap();
    assert_eq!(segment_lengths(one_chunk.len()), vec![516, 16]);
    let three_chunks = encrypt_stream(&vec![7u8; 1500], &key, &prefix).unwrap();
    assert_eq!(segment_lengths(three_chunks.len()), vec![516, 516, 516, 16]);
    for (ct, len) in [(empty, 0usize), (one_chunk, 500), (three_chunks, 1500)] {
        assert_eq!(decrypt_stream(&ct, &key, &prefix).unwrap(), vec![7u8; len]);
    }
}

#[test]
fn deterministic_encryption() {
    let key = key_a();
    let prefix = prefix_a();
    let plaintext = pseudo_random_bytes(1234, 5);
    let a = encrypt_stream(&plaintext, &key, &prefix).unwrap();
    let b = encrypt_stream(&plaintext, &key, &prefix).unwrap();
    assert_eq!(a, b);
}

#[test]
fn single_bit_flips_fail() {
    let key = key_a();
    let prefix = prefix_a();
    let plaintext = pseudo_random_bytes(600, 11);
    let ct = encrypt_stream(&plaintext, &key, &prefix).unwrap();
    for byte in 0..ct.len() {
        for bit in [0u8, 3, 7] {
            let mut bad = ct.clone();
            bad[byte] ^= 1 << bit;
            assert_eq!(
                decrypt_stream(&bad, &key, &prefix),
                Err(CodecError::AuthenticationFailure),
                "byte {} bit {}",
                byte,
                bit
            );
        }
    }
}

#[test]
fn wrong_key_or_prefix_fails() {
    let key = key_a();
    let prefix = prefix_a();
    for len in [0usize, 1, 500, 1024] {
        let plaintext = pseudo_random_bytes(len, 3);
        let ct = encrypt_stream(&plaintext, &key, &prefix).unwrap();
        let mut other_key = key;
        other_key[31] ^= 1;
        let mut other_prefix = prefix;
        other_prefix[0] ^= 0x80;
        assert_eq!(
            decrypt_stream(&ct, &other_key, &prefix),
            Err(CodecError::AuthenticationFailure)
        );
        assert_eq!(
            decrypt_stream(&ct, &key, &other_prefix),
            Err(CodecError::AuthenticationFailure)
        );
    }
}

#[test]
fn truncation_fails() {
    let key = key_a();
    let prefix = prefix_a();
    let plaintext = pseudo_random_bytes(1024, 17);
    let ct = encrypt_stream(&plaintext, &key, &prefix).unwrap();
    let without_last = &ct[..2 * SEGMENT_LEN];
    assert_eq!(
        decrypt_stream(without_last, &key, &prefix),
        Err(CodecError::AuthenticationFailure)
    );
    for cut in [1usize, 10, 39] {
        assert_eq!(
            decrypt_stream(&ct[..ct.len() - cut], &key, &prefix),
            Err(CodecError::AuthenticationFailure)
        );
    }
    assert_eq!(decrypt_stream(&[], &key, &prefix), Err(CodecError::AuthenticationFailure));
    let exact = encrypt_stream(&plaintext[..1000], &key, &prefix).unwrap();
    assert_eq!(
        decrypt_stream(&exact[..exact.len() - 16], &key, &prefix),
        Err(CodecError::AuthenticationFailure)
    );
}

#[test]
fn reordered_segments_fail() {
    let key = key_a();
    let prefix = prefix_a();
    let plaintext = pseudo_random_bytes(1600, 23);
    let ct = encrypt_stream(&plaintext, &key, &prefix).unwrap();
    let mut swapped = Vec::new();
    swapped.extend_from_slice(&ct[SEGMENT_LEN..2 * SEGMENT_LEN]);
    swapped.extend_from_slice(&ct[..SEGMENT_LEN]);
    swapped.extend_from_slice(&ct[2 * SEGMENT_LEN..]);
    assert_eq!(decrypt_stream(&swapped, &key, &prefix), Err(CodecError::AuthenticationFailure));
}

#[test]
fn chunk_sessions_follow_positions() {
    let key = key_a();
    let prefix = prefix_a();
    let plaintext = pseudo_random_bytes(1100, 29);
    let mut enc = ChunkEncryptor::new(&key, &prefix);
    assert_eq!(enc.position(), 0);
    let s0 = enc.encrypt_chunk(&plaintext[..500]).unwrap();
    assert_eq!((enc.position(), enc.is_finished()), (1, false));
    let s1 = enc.encrypt_chunk(&plaintext[500..1000]).unwrap();
    assert_eq!((enc.position(), enc.is_finished()), (2, false));
    let s2 = enc.encrypt_chunk(&plaintext[1000..]).unwrap();
    assert_eq!((enc.position(), enc.is_finished()), (2, true));
    assert_eq!((s0.len(), s1.len(), s2.len()), (516, 516, 116));
    let whole = encrypt_stream(&plaintext, &key, &prefix).unwrap();
    assert_eq!([s0.clone(), s1.clone(), s2.clone()].concat(), whole);

    let mut dec = ChunkDecryptor::new(&key, &prefix);
    assert_eq!(dec.decrypt_segment(&s0).unwrap(), &plaintext[..500]);
    assert_eq!((dec.position(), dec.is_finished()), (1, false));
    assert_eq!(dec.decrypt_segment(&s1).unwrap(), &plaintext[500..1000]);
    assert_eq!(dec.decrypt_segment(&s2).unwrap(), &plaintext[1000..]);
    assert_eq!((dec.position(), dec.is_finished()), (2, true));
}

#[test]
fn decryptor_rejects_empty_and_out_of_order_segments() {
    let key = key_a();
    let prefix = prefix_a();
    let mut dec = ChunkDecryptor::new(&key, &prefix);
    assert_eq!(dec.decrypt_segment(&[]), Err(CodecError::AuthenticationFailure));
    assert!(dec.is_finished());

    let ct = encrypt_stream(&vec![1u8; 1000], &key, &prefix).unwrap();
    let mut dec = ChunkDecryptor::new(&key, &prefix);
    assert_eq!(
        dec.decrypt_segment(&ct[SEGMENT_LEN..2 * SEGMENT_LEN]),
        Err(CodecError::AuthenticationFailure)
    );
    assert!(dec.is_finished());
}

#[test]
fn cut_just_after_segment_boundary_fails() {
    let key = key_a();
    let prefix = prefix_a();
    let ct = encrypt_stream(&pseudo_random_bytes(1400, 31), &key, &prefix).unwrap();
    for extra in [0usize, 1, 8, 15] {
        let cut = SEGMENT_LEN + extra;
        assert_eq!(
            decrypt_stream(&ct[..cut], &key, &prefix),
            Err(CodecError::AuthenticationFailure)
        );
    }
}
