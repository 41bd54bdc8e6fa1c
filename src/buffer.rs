//! Whole-buffer codec: one seal or open over the entire message.
use crate::error::CodecError;
use crate::primitive::{open, opens_to, rejects, seal, xchacha_seal, MAX_MESSAGE_LEN, TAG_LEN};
use vstd::prelude::*;

verus! {

/// `ct` is the whole-buffer encryption of `msg` under `key` and `nonce`: the
/// sealed message, one tag longer than it.
pub open spec fn buffer_encrypts_to(key: Seq<u8>, nonce: Seq<u8>, msg: Seq<u8>, ct: Seq<u8>) -> bool {
    &&& msg.len() <= MAX_MESSAGE_LEN
    &&& ct.len() == msg.len() + TAG_LEN
    &&& ct == xchacha_seal(key, nonce, msg)
}

/// What `encrypt_buffer` returns on `msg`: its encryption, or an encryption
/// error when the message is longer than the cipher can process.
pub open spec fn buffer_encrypt_outcome(
    key: Seq<u8>,
    nonce: Seq<u8>,
    msg: Seq<u8>,
    r: Result<Seq<u8>, CodecError>,
) -> bool {
    match r {
        Ok(ct) => buffer_encrypts_to(key, nonce, msg, ct),
        Err(e) => e == CodecError::EncryptionError && msg.len() > MAX_MESSAGE_LEN,
    }
}

/// What `decrypt_buffer` returns on `ct`: the one message whose encryption is
/// `ct`, or an authentication failure when there is none.
pub open spec fn buffer_decrypts_to(
    key: Seq<u8>,
    nonce: Seq<u8>,
    ct: Seq<u8>,
    r: Result<Seq<u8>, CodecError>,
) -> bool {
    match r {
        Ok(msg) => buffer_encrypts_to(key, nonce, msg, ct) && forall|q: Seq<u8>|
            #[trigger] buffer_encrypts_to(key, nonce, q, ct) ==> q == msg,
        Err(e) => e == CodecError::AuthenticationFailure && forall|q: Seq<u8>|
            !#[trigger] buffer_encrypts_to(key, nonce, q, ct),
    }
}

/// The view of a byte-vector result.
pub open spec fn result_view(r: Result<Vec<u8>, CodecError>) -> Result<Seq<u8>, CodecError> {
    match r {
        Ok(v) => Ok(v@),
        Err(e) => Err(e),
    }
}

/// Encrypts a whole message with one seal under `key` and `nonce`.
pub fn encrypt_buffer(plaintext: &[u8], key: &[u8; 32], nonce: &[u8; 24]) -> (r: Result<
    Vec<u8>,
    CodecError,
>)
    ensures
        buffer_encrypt_outcome(key@, nonce@, plaintext@, result_view(r)),
        r is Ok <==> plaintext@.len() <= MAX_MESSAGE_LEN,
        r matches Ok(c) ==> c@.len() == plaintext@.len() + TAG_LEN,
{
    if plaintext.len() as u64 > MAX_MESSAGE_LEN {
        return Err(CodecError::EncryptionError);
    }
    match seal(key, nonce.as_slice(), plaintext) {
        Ok(c) => Ok(c),
        Err(_) => Err(CodecError::EncryptionError),
    }
}

/// Decrypts and authenticates a whole message sealed by `encrypt_buffer`.
pub fn decrypt_buffer(ciphertext: &[u8], key: &[u8; 32], nonce: &[u8; 24]) -> (r: Result<
    Vec<u8>,
    CodecError,
>)
    ensures
        buffer_decrypts_to(key@, nonce@, ciphertext@, result_view(r)),
        ciphertext@.len() < TAG_LEN ==> r == Err::<Vec<u8>, CodecError>(
            CodecError::AuthenticationFailure,
        ),
        r matches Ok(p) ==> p@.len() + TAG_LEN == ciphertext@.len(),
{
    if ciphertext.len() as u64 > MAX_MESSAGE_LEN + TAG_LEN as u64 {
        return Err(CodecError::AuthenticationFailure);
    }
    match open(key, nonce.as_slice(), ciphertext) {
        Ok(p) => {
            assert(opens_to(key@, nonce@, ciphertext@, p@));
            Ok(p)
        },
        Err(_) => {
            assert(rejects(key@, nonce@, ciphertext@));
            Err(CodecError::AuthenticationFailure)
        },
    }
}

/// Decrypting what `encrypt_buffer` produced gives back the message.
pub proof fn lemma_buffer_round_trip(
    key: Seq<u8>,
    nonce: Seq<u8>,
    msg: Seq<u8>,
    ct: Seq<u8>,
    r: Result<Seq<u8>, CodecError>,
)
    requires
        buffer_encrypts_to(key, nonce, msg, ct),
        buffer_decrypts_to(key, nonce, ct, r),
    ensures
        r == Ok::<Seq<u8>, CodecError>(msg),
{
}

/// Encryption is a function of key, nonce and message: two encryptions of
/// the same message under the same key and nonce are byte-identical.
pub proof fn lemma_buffer_deterministic(
    key: Seq<u8>,
    nonce: Seq<u8>,
    msg: Seq<u8>,
    ct1: Seq<u8>,
    ct2: Seq<u8>,
)
    requires
        buffer_encrypts_to(key, nonce, msg, ct1),
        buffer_encrypts_to(key, nonce, msg, ct2),
    ensures
        ct1 == ct2,
{
}

/// Two calls of `encrypt_buffer` on the same message, key and nonce have the
/// same outcome: the same bytes, or the same error.
pub proof fn lemma_buffer_encrypt_outcome_deterministic(
    key: Seq<u8>,
    nonce: Seq<u8>,
    msg: Seq<u8>,
    r1: Result<Seq<u8>, CodecError>,
    r2: Result<Seq<u8>, CodecError>,
)
    requires
        buffer_encrypt_outcome(key, nonce, msg, r1),
        buffer_encrypt_outcome(key, nonce, msg, r2),
    ensures
        r1 == r2,
{
}

/// A ciphertext that differs from the encryption of `msg` never decrypts to
/// `msg`: a successful decryption always returns the message whose exact
/// encryption was supplied.
pub proof fn lemma_buffer_altered_never_yields_plaintext(
    key: Seq<u8>,
    nonce: Seq<u8>,
    msg: Seq<u8>,
    ct: Seq<u8>,
    altered: Seq<u8>,
    r: Result<Seq<u8>, CodecError>,
)
    requires
        buffer_encrypts_to(key, nonce, msg, ct),
        altered != ct,
        buffer_decrypts_to(key, nonce, altered, r),
    ensures
        r != Ok::<Seq<u8>, CodecError>(msg),
{
}

} // verus!
