use vstd::prelude::*;

verus! {

/// Why an encryption or decryption did not complete.
#[derive(Debug, Clone, Copy, PartialEq, Eq, Structural)]
pub enum CodecError {
    /// The message is longer than the cipher can process, or a stream has used
    /// every counter position.
    EncryptionError,
    /// A ciphertext did not verify under the given key and nonce.
    AuthenticationFailure,
}

} // verus!
