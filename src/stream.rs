//! Chunked streaming codec. The plaintext is cut into chunks of `CHUNK_SIZE`
//! bytes; the last chunk is always shorter (possibly empty), so a message whose
//! length is a multiple of `CHUNK_SIZE` ends with an empty final chunk. Chunk
//! `i` is sealed under the nonce `prefix || be32(i) || last`, where `last` is 1
//! for the final chunk and 0 otherwise, and the sealed chunks are laid end to
//! end with no framing: every segment but the last is `SEGMENT_LEN` bytes.
use crate::buffer::result_view;
use crate::error::CodecError;
use crate::primitive::{open, opens_to, rejects, seal, xchacha_seal, MAX_MESSAGE_LEN, TAG_LEN};
use vstd::arithmetic::div_mod::{
    lemma_div_is_ordered, lemma_div_pos_is_pos, lemma_fundamental_div_mod,
    lemma_fundamental_div_mod_converse, lemma_mod_pos_bound,
};
use vstd::slice::slice_subrange;
use vstd::prelude::*;

verus! {

/// Plaintext bytes per chunk.
pub const CHUNK_SIZE: usize = 500;

/// Ciphertext bytes per full segment: a full chunk and its tag.
pub const SEGMENT_LEN: usize = 516;

/// Length of the nonce prefix that the chunk counter and flag complete.
pub const PREFIX_LEN: usize = 19;

/// Most chunks one stream may hold: positions run over all of `u32`.
pub const MAX_CHUNKS: u64 = 4294967296;

/// Number of chunks, hence of segments, for a plaintext of `len` bytes.
pub open spec fn chunk_count(len: nat) -> nat {
    len / (CHUNK_SIZE as nat) + 1
}

/// The `i`-th piece of width `w` of `s` (the last one may be shorter).
pub open spec fn piece(s: Seq<u8>, w: int, i: int) -> Seq<u8> {
    let start = i * w;
    let end = if start + w <= s.len() { start + w } else { s.len() as int };
    s.subrange(start, end)
}

/// The `i`-th plaintext chunk.
pub open spec fn chunk_of(p: Seq<u8>, i: int) -> Seq<u8> {
    piece(p, CHUNK_SIZE as int, i)
}

/// The `i`-th ciphertext segment.
pub open spec fn segment_of(c: Seq<u8>, i: int) -> Seq<u8> {
    piece(c, SEGMENT_LEN as int, i)
}

/// Big-endian bytes of a 32-bit counter.
pub open spec fn be32(x: int) -> Seq<u8> {
    seq![
        (x / 0x100_0000) as u8,
        ((x / 0x1_0000) % 0x100) as u8,
        ((x / 0x100) % 0x100) as u8,
        (x % 0x100) as u8,
    ]
}

/// The nonce of the chunk at `position`.
pub open spec fn chunk_nonce(prefix: Seq<u8>, position: int, last: bool) -> Seq<u8> {
    prefix + be32(position) + seq![if last { 1u8 } else { 0u8 }]
}

/// The sealed `i`-th chunk of `p`.
pub open spec fn sealed_chunk(key: Seq<u8>, prefix: Seq<u8>, p: Seq<u8>, i: int) -> Seq<u8> {
    xchacha_seal(key, chunk_nonce(prefix, i, i == chunk_count(p.len()) - 1), chunk_of(p, i))
}

/// `c` is the stream encryption of `p`: the sealed chunks of `p`, end to end.
pub open spec fn stream_encrypts_to(key: Seq<u8>, prefix: Seq<u8>, p: Seq<u8>, c: Seq<u8>) -> bool {
    &&& chunk_count(p.len()) <= MAX_CHUNKS
    &&& c.len() == p.len() + TAG_LEN * chunk_count(p.len())
    &&& forall|i: int|
        0 <= i < chunk_count(p.len()) ==> #[trigger] segment_of(c, i) == sealed_chunk(
            key,
            prefix,
            p,
            i,
        )
}

/// What `encrypt_stream` returns on `p`: its stream encryption, or an
/// encryption error when it needs more chunks than the counter has positions.
pub open spec fn stream_encrypt_outcome(
    key: Seq<u8>,
    prefix: Seq<u8>,
    p: Seq<u8>,
    r: Result<Seq<u8>, CodecError>,
) -> bool {
    match r {
        Ok(c) => stream_encrypts_to(key, prefix, p, c),
        Err(e) => e == CodecError::EncryptionError && chunk_count(p.len()) > MAX_CHUNKS,
    }
}

/// What `decrypt_stream` returns on `c`: the one plaintext whose stream
/// encryption is `c`, or an authentication failure when there is none.
pub open spec fn stream_decrypts_to(
    key: Seq<u8>,
    prefix: Seq<u8>,
    c: Seq<u8>,
    r: Result<Seq<u8>, CodecError>,
) -> bool {
    match r {
        Ok(p) => stream_encrypts_to(key, prefix, p, c) && forall|q: Seq<u8>|
            #[trigger] stream_encrypts_to(key, prefix, q, c) ==> q == p,
        Err(e) => e == CodecError::AuthenticationFailure && forall|q: Seq<u8>|
            !#[trigger] stream_encrypts_to(key, prefix, q, c),
    }
}

/// Builds the nonce of the chunk at `position`.
fn make_chunk_nonce(prefix: &[u8; 19], position: u32, last: bool) -> (r: Vec<u8>)
    ensures
        r@ == chunk_nonce(prefix@, position as int, last),
{
    let mut r: Vec<u8> = Vec::new();
    let mut i: usize = 0;
    while i < PREFIX_LEN
        invariant
            i <= PREFIX_LEN,
            prefix@.len() == PREFIX_LEN,
            r@ == prefix@.subrange(0, i as int),
        decreases PREFIX_LEN - i,
    {
        r.push(prefix[i]);
        i = i + 1;
    }
    r.push((position / 0x100_0000) as u8);
    r.push(((position / 0x1_0000) % 0x100) as u8);
    r.push(((position / 0x100) % 0x100) as u8);
    r.push((position % 0x100) as u8);
    r.push(if last { 1u8 } else { 0u8 });
    assert(r@ =~= chunk_nonce(prefix@, position as int, last));
    r
}

/// Encrypting session of one stream: the key, the nonce prefix, the position
/// of the next chunk and whether the final chunk has been sealed.
pub struct ChunkEncryptor {
    key: [u8; 32],
    prefix: [u8; 19],
    position: u32,
    finished: bool,
}

impl ChunkEncryptor {
    pub closed spec fn key_view(&self) -> Seq<u8> {
        self.key@
    }

    pub closed spec fn prefix_view(&self) -> Seq<u8> {
        self.prefix@
    }

    pub closed spec fn position_view(&self) -> int {
        self.position as int
    }

    pub closed spec fn finished_view(&self) -> bool {
        self.finished
    }

    /// Starts a stream at position 0.
    pub fn new(key: &[u8; 32], prefix: &[u8; 19]) -> (s: Self)
        ensures
            s.key_view() == key@,
            s.prefix_view() == prefix@,
            s.position_view() == 0,
            !s.finished_view(),
    {
        ChunkEncryptor { key: *key, prefix: *prefix, position: 0, finished: false }
    }

    /// Position of the next chunk.
    pub fn position(&self) -> (r: u32)
        ensures
            r as int == self.position_view(),
    {
        self.position
    }

    /// Whether the stream has ended, by its final chunk or by a failure.
    pub fn is_finished(&self) -> (r: bool)
        ensures
            r == self.finished_view(),
    {
        self.finished
    }

    /// Seals the next chunk. A chunk of exactly `CHUNK_SIZE` bytes is an
    /// inner chunk and the position advances; a shorter one (possibly empty)
    /// is the final chunk and ends the stream. An inner chunk at the last
    /// position fails, as its successor would have no position left.
    pub fn encrypt_chunk(&mut self, chunk: &[u8]) -> (r: Result<Vec<u8>, CodecError>)
        requires
            !old(self).finished_view(),
            chunk@.len() <= CHUNK_SIZE,
        ensures
            final(self).key_view() == old(self).key_view(),
            final(self).prefix_view() == old(self).prefix_view(),
            ({
                let last = chunk@.len() < CHUNK_SIZE;
                let pos = old(self).position_view();
                match r {
                    Ok(c) => {
                        &&& last || pos < u32::MAX
                        &&& c@ == xchacha_seal(
                            old(self).key_view(),
                            chunk_nonce(old(self).prefix_view(), pos, last),
                            chunk@,
                        )
                        &&& c@.len() == chunk@.len() + TAG_LEN
                        &&& final(self).position_view() == if last { pos } else { pos + 1 }
                        &&& final(self).finished_view() == last
                    },
                    Err(e) => {
                        &&& e == CodecError::EncryptionError
                        &&& !last && pos == u32::MAX
                        &&& final(self).finished_view()
                    },
                }
            }),
    {
        let last = chunk.len() < CHUNK_SIZE;
        if !last && self.position == u32::MAX {
            self.finished = true;
            return Err(CodecError::EncryptionError);
        }
        let nonce = make_chunk_nonce(&self.prefix, self.position, last);
        let c = seal(&self.key, nonce.as_slice(), chunk).unwrap();
        if last {
            self.finished = true;
        } else {
            self.position = self.position + 1;
        }
        Ok(c)
    }
}

/// Decrypting session of one stream: the key, the nonce prefix, the position
/// of the next segment and whether the final segment has been consumed.
pub struct ChunkDecryptor {
    key: [u8; 32],
    prefix: [u8; 19],
    position: u32,
    finished: bool,
}

impl ChunkDecryptor {
    pub closed spec fn key_view(&self) -> Seq<u8> {
        self.key@
    }

    pub closed spec fn prefix_view(&self) -> Seq<u8> {
        self.prefix@
    }

    pub closed spec fn position_view(&self) -> int {
        self.position as int
    }

    pub closed spec fn finished_view(&self) -> bool {
        self.finished
    }

    /// Starts a stream at position 0.
    pub fn new(key: &[u8; 32], prefix: &[u8; 19]) -> (s: Self)
        ensures
            s.key_view() == key@,
            s.prefix_view() == prefix@,
            s.position_view() == 0,
            !s.finished_view(),
    {
        ChunkDecryptor { key: *key, prefix: *prefix, position: 0, finished: false }
    }

    /// Position of the next segment.
    pub fn position(&self) -> (r: u32)
        ensures
            r as int == self.position_view(),
    {
        self.position
    }

    /// Whether the stream has ended, by its final segment or by a failure.
    pub fn is_finished(&self) -> (r: bool)
        ensures
            r == self.finished_view(),
    {
        self.finished
    }

    /// Opens the next segment. A segment of exactly `SEGMENT_LEN` bytes is an
    /// inner segment and the position advances; a shorter one (an empty one
    /// included, which then fails) is the final segment and ends the stream.
    /// Any failure ends the stream too.
    pub fn decrypt_segment(&mut self, segment: &[u8]) -> (r: Result<Vec<u8>, CodecError>)
        requires
            !old(self).finished_view(),
            segment@.len() <= SEGMENT_LEN,
        ensures
            final(self).key_view() == old(self).key_view(),
            final(self).prefix_view() == old(self).prefix_view(),
            ({
                let last = segment@.len() < SEGMENT_LEN;
                let pos = old(self).position_view();
                let nonce = chunk_nonce(old(self).prefix_view(), pos, last);
                match r {
                    Ok(p) => {
                        &&& last || pos < u32::MAX
                        &&& opens_to(old(self).key_view(), nonce, segment@, p@)
                        &&& final(self).position_view() == if last { pos } else { pos + 1 }
                        &&& final(self).finished_view() == last
                    },
                    Err(e) => {
                        &&& e == CodecError::AuthenticationFailure
                        &&& (!last && pos == u32::MAX) || rejects(
                            old(self).key_view(),
                            nonce,
                            segment@,
                        )
                        &&& final(self).finished_view()
                    },
                }
            }),
    {
        let last = segment.len() < SEGMENT_LEN;
        if !last && self.position == u32::MAX {
            self.finished = true;
            return Err(CodecError::AuthenticationFailure);
        }
        let nonce = make_chunk_nonce(&self.prefix, self.position, last);
        match open(&self.key, nonce.as_slice(), segment) {
            Ok(p) => {
                if last {
                    self.finished = true;
                } else {
                    self.position = self.position + 1;
                }
                Ok(p)
            },
            Err(_) => {
                self.finished = true;
                Err(CodecError::AuthenticationFailure)
            },
        }
    }
}

/// A stream of `plen` plaintext bytes has `plen / CHUNK_SIZE` full segments
/// and a final segment of `plen % CHUNK_SIZE + TAG_LEN` bytes.
proof fn lemma_stream_lengths(plen: int, clen: int)
    requires
        0 <= plen,
        clen == plen + TAG_LEN * (plen / (CHUNK_SIZE as int) + 1),
    ensures
        clen / (SEGMENT_LEN as int) == plen / (CHUNK_SIZE as int),
        clen % (SEGMENT_LEN as int) == plen % (CHUNK_SIZE as int) + TAG_LEN,
{
    let a = plen / 500;
    let b = plen % 500;
    lemma_fundamental_div_mod(plen, 500);
    lemma_mod_pos_bound(plen, 500);
    lemma_fundamental_div_mod_converse(clen, 516, a, b + 16);
}

/// `len / w` is the index of the last piece when `len = w * pos + rest`.
proof fn lemma_last_piece(len: int, w: int, pos: int)
    requires
        0 < w,
        0 <= pos,
        pos * w <= len,
    ensures
        len - pos * w < w <==> len / w == pos,
        len - pos * w >= w ==> len / w > pos,
{
    if len - pos * w < w {
        lemma_fundamental_div_mod_converse(len, w, pos, len - pos * w);
    } else {
        lemma_fundamental_div_mod(len - pos * w - w, w);
        lemma_mod_pos_bound(len - pos * w - w, w);
        lemma_div_pos_is_pos(len - pos * w - w, w);
        let q = (len - pos * w - w) / w;
        assert(len == (pos + 1 + q) * w + (len - pos * w - w) % w) by (nonlinear_arith)
            requires
                len - pos * w - w == w * q + (len - pos * w - w) % w,
        ;
        lemma_fundamental_div_mod_converse(len, w, pos + 1 + q, (len - pos * w - w) % w);
    }
}

/// Two sequences of one length that agree on every piece of width `w` are equal.
proof fn lemma_pieces_determine(s: Seq<u8>, t: Seq<u8>, w: int)
    requires
        0 < w,
        s.len() == t.len(),
        forall|i: int| 0 <= i <= (s.len() as int) / w ==> #[trigger] piece(s, w, i) == piece(t, w, i),
    ensures
        s == t,
{
    assert forall|j: int| 0 <= j < s.len() implies s[j] == t[j] by {
        let i = j / w;
        lemma_fundamental_div_mod(j, w);
        lemma_mod_pos_bound(j, w);
        lemma_div_pos_is_pos(j, w);
        lemma_div_is_ordered(j, s.len() as int, w);
        assert(i * w <= j < i * w + w) by (nonlinear_arith)
            requires
                j == w * i + j % w,
                0 <= j % w < w,
        ;
        assert(piece(s, w, i) == piece(t, w, i));
        assert(piece(s, w, i)[j - i * w] == s[j]);
        assert(piece(t, w, i)[j - i * w] == t[j]);
    }
    assert(s =~= t);
}

/// Encrypts a whole plaintext as a stream of sealed chunks under `key` and
/// the nonce `prefix`.
pub fn encrypt_stream(plaintext: &[u8], key: &[u8; 32], prefix: &[u8; 19]) -> (r: Result<
    Vec<u8>,
    CodecError,
>)
    ensures
        stream_encrypt_outcome(key@, prefix@, plaintext@, result_view(r)),
        r is Ok <==> chunk_count(plaintext@.len()) <= MAX_CHUNKS,
{
    let mut enc = ChunkEncryptor::new(key, prefix);
    let mut out: Vec<u8> = Vec::new();
    let n = plaintext.len();
    let mut start: usize = 0;
    loop
        invariant
            enc.key_view() == key@,
            enc.prefix_view() == prefix@,
            !enc.finished_view(),
            n == plaintext@.len(),
            start == enc.position_view() * 500,
            start <= n,
            out@.len() == enc.position_view() * 516,
            forall|i: int|
                0 <= i < enc.position_view() ==> #[trigger] segment_of(out@, i) == sealed_chunk(
                    key@,
                    prefix@,
                    plaintext@,
                    i,
                ),
        decreases n - start,
    {
        let end: usize = if n - start >= CHUNK_SIZE {
            start + CHUNK_SIZE
        } else {
            n
        };
        let chunk = slice_subrange(plaintext, start, end);
        let ghost pos = enc.position_view();
        let ghost old_out = out@;
        proof {
            lemma_last_piece(n as int, 500, pos);
            assert(chunk@ == chunk_of(plaintext@, pos));
        }
        match enc.encrypt_chunk(chunk) {
            Ok(seg) => {
                out.extend_from_slice(seg.as_slice());
                proof {
                    assert forall|i: int| 0 <= i < pos implies #[trigger] segment_of(out@, i)
                        == sealed_chunk(key@, prefix@, plaintext@, i) by {
                        assert(segment_of(out@, i) =~= segment_of(old_out, i));
                    }
                    assert(segment_of(out@, pos) =~= seg@);
                }
                if end - start < CHUNK_SIZE {
                    return Ok(out);
                }
                start = end;
            },
            Err(e) => {
                return Err(e);
            },
        }
    }
}

/// Decrypts and authenticates a whole stream produced by `encrypt_stream`.
pub fn decrypt_stream(ciphertext: &[u8], key: &[u8; 32], prefix: &[u8; 19]) -> (r: Result<
    Vec<u8>,
    CodecError,
>)
    ensures
        stream_decrypts_to(key@, prefix@, ciphertext@, result_view(r)),
{
    let mut dec = ChunkDecryptor::new(key, prefix);
    let mut out: Vec<u8> = Vec::new();
    let n = ciphertext.len();
    let mut start: usize = 0;
    loop
        invariant
            dec.key_view() == key@,
            dec.prefix_view() == prefix@,
            !dec.finished_view(),
            n == ciphertext@.len(),
            start == dec.position_view() * 516,
            start <= n,
            out@.len() == dec.position_view() * 500,
            forall|i: int|
                0 <= i < dec.position_view() ==> #[trigger] opens_to(
                    key@,
                    chunk_nonce(prefix@, i, false),
                    segment_of(ciphertext@, i),
                    chunk_of(out@, i),
                ),
        decreases n - start,
    {
        let end: usize = if n - start >= SEGMENT_LEN {
            start + SEGMENT_LEN
        } else {
            n
        };
        let seg = slice_subrange(ciphertext, start, end);
        let ghost pos = dec.position_view();
        let ghost old_out = out@;
        proof {
            lemma_last_piece(n as int, 516, pos);
            assert(seg@ == segment_of(ciphertext@, pos));
        }
        match dec.decrypt_segment(seg) {
            Ok(p) => {
                out.extend_from_slice(p.as_slice());
                proof {
                    assert forall|i: int| 0 <= i < pos implies #[trigger] opens_to(
                        key@,
                        chunk_nonce(prefix@, i, false),
                        segment_of(ciphertext@, i),
                        chunk_of(out@, i),
                    ) by {
                        assert(chunk_of(out@, i) =~= chunk_of(old_out, i));
                    }
                    assert(chunk_of(out@, pos) =~= p@);
                }
                if end - start < SEGMENT_LEN {
                    proof {
                        lemma_decrypted_stream(key@, prefix@, ciphertext@, out@, pos);
                    }
                    return Ok(out);
                }
                start = end;
            },
            Err(e) => {
                proof {
                    lemma_failed_stream(key@, prefix@, ciphertext@, pos);
                }
                return Err(e);
            },
        }
    }
}

/// When every segment of `c` opened, up to the final one at `last`, the
/// concatenated chunks `p` are the one plaintext whose stream encryption is `c`.
proof fn lemma_decrypted_stream(key: Seq<u8>, prefix: Seq<u8>, c: Seq<u8>, p: Seq<u8>, last: int)
    requires
        0 <= last <= u32::MAX,
        last * 516 <= c.len() < last * 516 + 516,
        forall|i: int|
            0 <= i < last ==> #[trigger] opens_to(
                key,
                chunk_nonce(prefix, i, false),
                segment_of(c, i),
                chunk_of(p, i),
            ),
        p.len() >= last * 500,
        opens_to(key, chunk_nonce(prefix, last, true), segment_of(c, last), chunk_of(p, last)),
    ensures
        stream_decrypts_to(key, prefix, c, Ok(p)),
{
    let plen = p.len() as int;
    let clen = c.len() as int;
    assert(segment_of(c, last).len() == clen - last * 516);
    assert(chunk_of(p, last).len() + 16 == clen - last * 516);
    assert(plen < last * 500 + 500);
    lemma_fundamental_div_mod_converse(plen, 500, last, plen - last * 500);
    assert(chunk_count(p.len()) == last + 1);
    assert forall|i: int| 0 <= i < chunk_count(p.len()) implies #[trigger] segment_of(c, i)
        == sealed_chunk(key, prefix, p, i) by {
        if i < last {
            assert(opens_to(key, chunk_nonce(prefix, i, false), segment_of(c, i), chunk_of(p, i)));
        }
    }
    assert(stream_encrypts_to(key, prefix, p, c));
    assert forall|q: Seq<u8>| #[trigger] stream_encrypts_to(key, prefix, q, c) implies q == p by {
        lemma_stream_lengths(q.len() as int, clen);
        lemma_fundamental_div_mod_converse(clen, 516, last, clen - last * 516);
        lemma_fundamental_div_mod(q.len() as int, 500);
        assert(q.len() == p.len());
        assert forall|i: int| 0 <= i <= q.len() / 500 implies #[trigger] piece(q, 500, i) == piece(
            p,
            500,
            i,
        ) by {
            assert(segment_of(c, i) == sealed_chunk(key, prefix, q, i));
            assert(chunk_of(q, i).len() <= MAX_MESSAGE_LEN);
            if i < last {
                assert(opens_to(key, chunk_nonce(prefix, i, false), segment_of(c, i), chunk_of(p, i)));
            }
        }
        lemma_pieces_determine(q, p, 500);
    }
}

/// When the segment at `pos` of `c` cannot be opened (or is an inner segment
/// at the last position), no plaintext has `c` as its stream encryption.
proof fn lemma_failed_stream(key: Seq<u8>, prefix: Seq<u8>, c: Seq<u8>, pos: int)
    requires
        0 <= pos <= u32::MAX,
        pos * 516 <= c.len(),
        ({
            let last = c.len() - pos * 516 < 516;
            (!last && pos == u32::MAX) || rejects(key, chunk_nonce(prefix, pos, last), segment_of(c, pos))
        }),
    ensures
        forall|q: Seq<u8>| !#[trigger] stream_encrypts_to(key, prefix, q, c),
{
    assert forall|q: Seq<u8>| #[trigger] stream_encrypts_to(key, prefix, q, c) implies false by {
        let clen = c.len() as int;
        lemma_stream_lengths(q.len() as int, clen);
        lemma_last_piece(clen, 516, pos);
        let last = clen - pos * 516 < 516;
        if !last && pos == u32::MAX {
            assert(chunk_count(q.len()) > MAX_CHUNKS);
        } else {
            assert(segment_of(c, pos) == sealed_chunk(key, prefix, q, pos));
            assert(chunk_of(q, pos).len() <= MAX_MESSAGE_LEN);
        }
    }
}

/// The stream encryption of a plaintext is unique: encrypting the same
/// plaintext twice under the same key and prefix gives identical bytes.
pub proof fn lemma_stream_deterministic(
    key: Seq<u8>,
    prefix: Seq<u8>,
    p: Seq<u8>,
    c1: Seq<u8>,
    c2: Seq<u8>,
)
    requires
        stream_encrypts_to(key, prefix, p, c1),
        stream_encrypts_to(key, prefix, p, c2),
    ensures
        c1 == c2,
{
    lemma_stream_lengths(p.len() as int, c1.len() as int);
    assert forall|i: int| 0 <= i <= (c1.len() as int) / 516 implies #[trigger] piece(c1, 516, i)
        == piece(c2, 516, i) by {
        assert(segment_of(c1, i) == sealed_chunk(key, prefix, p, i));
        assert(segment_of(c2, i) == sealed_chunk(key, prefix, p, i));
    }
    lemma_pieces_determine(c1, c2, 516);
}

/// Decrypting the stream encryption of a plaintext gives back that plaintext.
pub proof fn lemma_stream_round_trip(
    key: Seq<u8>,
    prefix: Seq<u8>,
    p: Seq<u8>,
    c: Seq<u8>,
    r: Result<Seq<u8>, CodecError>,
)
    requires
        stream_encrypts_to(key, prefix, p, c),
        stream_decrypts_to(key, prefix, c, r),
    ensures
        r == Ok::<Seq<u8>, CodecError>(p),
{
}

/// A stream that differs in any byte or in length from the encryption of `p`
/// never decrypts to `p`: decryption succeeds only on the exact encryption of
/// what it returns.
pub proof fn lemma_stream_altered_never_yields_plaintext(
    key: Seq<u8>,
    prefix: Seq<u8>,
    p: Seq<u8>,
    c: Seq<u8>,
    altered: Seq<u8>,
    r: Result<Seq<u8>, CodecError>,
)
    requires
        stream_encrypts_to(key, prefix, p, c),
        altered != c,
        stream_decrypts_to(key, prefix, altered, r),
    ensures
        r != Ok::<Seq<u8>, CodecError>(p),
{
    if r == Ok::<Seq<u8>, CodecError>(p) {
        lemma_stream_deterministic(key, prefix, p, c, altered);
    }
}

/// Removing the final segment from a stream encryption leaves a stream that
/// fails to decrypt: it ends on a segment boundary, and no stream does.
pub proof fn lemma_stream_final_segment_removed(
    key: Seq<u8>,
    prefix: Seq<u8>,
    p: Seq<u8>,
    c: Seq<u8>,
    r: Result<Seq<u8>, CodecError>,
)
    requires
        stream_encrypts_to(key, prefix, p, c),
        stream_decrypts_to(
            key,
            prefix,
            c.subrange(0, (chunk_count(p.len()) - 1) * SEGMENT_LEN),
            r,
        ),
    ensures
        r is Err,
{
    let n = chunk_count(p.len()) - 1;
    lemma_stream_lengths(p.len() as int, c.len() as int);
    lemma_fundamental_div_mod(c.len() as int, 516);
    let t = c.subrange(0, n * SEGMENT_LEN);
    if r is Ok {
        let q = r->Ok_0;
        lemma_stream_lengths(q.len() as int, t.len() as int);
        lemma_fundamental_div_mod_converse(t.len() as int, 516, n, 0);
    }
}

/// A plaintext whose length is a multiple of `CHUNK_SIZE` (the empty one
/// included) ends with an empty final chunk, sealed as a segment exactly one
/// tag long after its full segments.
pub proof fn lemma_stream_exact_multiple(key: Seq<u8>, prefix: Seq<u8>, p: Seq<u8>, c: Seq<u8>)
    requires
        stream_encrypts_to(key, prefix, p, c),
        p.len() % (CHUNK_SIZE as nat) == 0,
    ensures
        chunk_of(p, (p.len() as int) / (CHUNK_SIZE as int)).len() == 0,
        c.len() == (chunk_count(p.len()) - 1) * SEGMENT_LEN + TAG_LEN,
{
    lemma_fundamental_div_mod(p.len() as int, 500);
}

/// Two calls of `encrypt_stream` on the same plaintext, key and prefix have
/// the same outcome: byte-identical streams, or the same error.
pub proof fn lemma_stream_encrypt_outcome_deterministic(
    key: Seq<u8>,
    prefix: Seq<u8>,
    p: Seq<u8>,
    r1: Result<Seq<u8>, CodecError>,
    r2: Result<Seq<u8>, CodecError>,
)
    requires
        stream_encrypt_outcome(key, prefix, p, r1),
        stream_encrypt_outcome(key, prefix, p, r2),
    ensures
        r1 == r2,
{
    if r1 is Ok && r2 is Ok {
        lemma_stream_deterministic(key, prefix, p, r1->Ok_0, r2->Ok_0);
    }
}

/// A stream whose final segment is shorter than a tag fails to decrypt: this
/// covers a stream cut on a segment boundary (its final segment removed, or
/// nothing left) and one cut within the first bytes of a segment.
pub proof fn lemma_stream_short_tail_fails(
    key: Seq<u8>,
    prefix: Seq<u8>,
    c: Seq<u8>,
    r: Result<Seq<u8>, CodecError>,
)
    requires
        c.len() % (SEGMENT_LEN as nat) < TAG_LEN,
        stream_decrypts_to(key, prefix, c, r),
    ensures
        r is Err,
{
    if r is Ok {
        let q = r->Ok_0;
        lemma_stream_lengths(q.len() as int, c.len() as int);
    }
}

} // verus!
