//! Chunk digests: a chunk string is hashed, under a chosen hash kind, into a
//! stable hex string. Identical bytes under the same kind always give the
//! identical digest, so a digest is a pure function of chunk content.

use vstd::prelude::*;
use vstd::utf8::encode_utf8;
use crate::numfmt::{hex_of, hex_of_bytes, hex_string, hex_bytes_string};

verus! {

/// Which hash function produces chunk digests: a fast 64-bit
/// non-cryptographic fingerprint, or a 256-bit cryptographic digest.
#[derive(Clone, Copy, PartialEq, Eq, Structural, Debug)]
pub enum HashKind {
    Fast,
    Cryptographic,
}

/// The 64-bit value that the XXH3 hash assigns to a byte sequence.
pub uninterp spec fn fast_fingerprint_of(bytes: Seq<u8>) -> u64;

/// The 32 bytes that SHA-256 assigns to a byte sequence.
pub uninterp spec fn crypto_digest_of(bytes: Seq<u8>) -> Seq<u8>;

/// Relies on `xxhash_rust::xxh3::xxh3_64`: the hash is a function of the
/// input bytes alone.
#[verifier::external_body]
fn xxh3_64_bytes(b: &[u8]) -> (r: u64)
    ensures
        r == fast_fingerprint_of(b@),
{
    xxhash_rust::xxh3::xxh3_64(b)
}

/// Relies on `sha2::Sha256` through the `Digest` trait: the digest is a
/// function of the input bytes alone and is 32 bytes long.
#[verifier::external_body]
fn sha256_bytes(b: &[u8]) -> (r: Vec<u8>)
    ensures
        r@ == crypto_digest_of(b@),
        r@.len() == 32,
{
    <sha2::Sha256 as sha2::Digest>::digest(b).as_slice().to_vec()
}

/// The digest of a chunk: the hex rendering of the chosen hash of the
/// chunk's UTF-8 bytes. The fast kind is written as `{:x}` writes a `u64`;
/// the cryptographic kind as two hex digits per byte.
pub open spec fn digest_spec(chunk: Seq<char>, kind: HashKind) -> Seq<char> {
    match kind {
        HashKind::Fast => hex_of(fast_fingerprint_of(encode_utf8(chunk)) as nat),
        HashKind::Cryptographic => hex_of_bytes(crypto_digest_of(encode_utf8(chunk))),
    }
}

/// The digests that a chunk sequence hashes to, under `kind`.
pub open spec fn digests_spec(chunks: Seq<Seq<char>>, kind: HashKind) -> Seq<Seq<char>> {
    chunks.map_values(|c: Seq<char>| digest_spec(c, kind))
}

/// The digest of one chunk string under the given hash kind.
///
/// Identical chunk bytes and kind always yield the identical digest: the
/// result is pinned to `digest_spec`, a function of the two arguments.
pub fn digest(chunk: &str, kind: HashKind) -> (r: String)
    ensures
        r@ == digest_spec(chunk@, kind),
{
    let bytes = chunk.as_bytes();
    match kind {
        HashKind::Fast => {
            let h = xxh3_64_bytes(bytes);
            hex_string(h)
        },
        HashKind::Cryptographic => {
            let d = sha256_bytes(bytes);
            hex_bytes_string(&d)
        },
    }
}

} // verus!
