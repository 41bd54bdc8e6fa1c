//! The AEAD primitive: single-shot seal and open with XChaCha20-Poly1305 and
//! empty associated data.
use chacha20poly1305::aead::Aead;
use chacha20poly1305::{Key, KeyInit, XChaCha20Poly1305, XNonce};
use vstd::prelude::*;

verus! {

/// Key length in bytes.
pub const KEY_LEN: usize = 32;

/// Nonce length in bytes.
pub const NONCE_LEN: usize = 24;

/// Length of the authentication tag appended to every ciphertext.
pub const TAG_LEN: usize = 16;

/// Longest message the cipher can process: block 0 of the keystream keys the
/// MAC, and the `u32::MAX - 1` blocks of 64 bytes after it cover the message.
pub const MAX_MESSAGE_LEN: u64 = 274877906816;

/// The cipher's opaque error value (`aead::Error`), returned by seal and open
/// and mapped to `CodecError` by their callers.
#[verifier::external_type_specification]
#[verifier::external_body]
pub struct ExAeadError(chacha20poly1305::Error);

/// The ciphertext (message followed by tag) that XChaCha20-Poly1305 produces
/// for a key, a nonce and a message, with empty associated data.
pub uninterp spec fn xchacha_seal(key: Seq<u8>, nonce: Seq<u8>, msg: Seq<u8>) -> Seq<u8>;

/// `ct` is the sealing of `msg` under `key` and `nonce`, and of no other
/// message the cipher accepts.
pub open spec fn opens_to(key: Seq<u8>, nonce: Seq<u8>, ct: Seq<u8>, msg: Seq<u8>) -> bool {
    &&& msg.len() + TAG_LEN == ct.len()
    &&& msg.len() <= MAX_MESSAGE_LEN
    &&& xchacha_seal(key, nonce, msg) == ct
    &&& forall|q: Seq<u8>|
        q.len() <= MAX_MESSAGE_LEN && #[trigger] xchacha_seal(key, nonce, q) == ct ==> q == msg
}

/// No message the cipher accepts seals to `ct` under `key` and `nonce`.
pub open spec fn rejects(key: Seq<u8>, nonce: Seq<u8>, ct: Seq<u8>) -> bool {
    forall|q: Seq<u8>| q.len() <= MAX_MESSAGE_LEN ==> #[trigger] xchacha_seal(key, nonce, q) != ct
}

/// Relies on `Aead::encrypt` of `XChaCha20Poly1305` (chacha20poly1305 0.10):
/// the result is the message encrypted in place followed by the 16-byte tag,
/// a function of key, nonce and message. Within `MAX_MESSAGE_LEN` the length
/// check of the cipher passes and the keystream suffices (beyond it the
/// keystream application panics), so the call succeeds.
#[verifier::external_body]
pub(crate) fn seal(key: &[u8; 32], nonce: &[u8], msg: &[u8]) -> (r: Result<
    Vec<u8>,
    chacha20poly1305::Error,
>)
    requires
        nonce@.len() == NONCE_LEN,
        msg@.len() <= MAX_MESSAGE_LEN,
    ensures
        r is Ok,
        r matches Ok(c) ==> c@ == xchacha_seal(key@, nonce@, msg@) && c@.len() == msg@.len()
            + TAG_LEN,
{
    let cipher = XChaCha20Poly1305::new(Key::from_slice(key));
    cipher.encrypt(XNonce::from_slice(nonce), msg)
}

/// Relies on `Aead::decrypt` of `XChaCha20Poly1305` (chacha20poly1305 0.10):
/// it fails on input shorter than the tag, and otherwise returns the message
/// exactly when the Poly1305 tag over the body verifies; within the length
/// required here the keystream suffices. The body is the message XORed with a
/// keystream fixed by key and nonce, so a returned message is the one message
/// whose sealing is `ct`, and a failure means no message seals to `ct`.
#[verifier::external_body]
pub(crate) fn open(key: &[u8; 32], nonce: &[u8], ct: &[u8]) -> (r: Result<
    Vec<u8>,
    chacha20poly1305::Error,
>)
    requires
        nonce@.len() == NONCE_LEN,
        ct@.len() <= MAX_MESSAGE_LEN + TAG_LEN,
    ensures
        r matches Ok(p) ==> opens_to(key@, nonce@, ct@, p@),
        r is Err ==> rejects(key@, nonce@, ct@),
{
    let cipher = XChaCha20Poly1305::new(Key::from_slice(key));
    cipher.decrypt(XNonce::from_slice(nonce), ct)
}

} // verus!
