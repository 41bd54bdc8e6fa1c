//! Authenticated file encryption over XChaCha20-Poly1305: a whole-buffer
//! codec and a chunked streaming codec with a per-chunk counter nonce.
pub mod buffer;
pub mod error;
pub mod primitive;
pub mod stream;
