//! Content hashing behind trusted wrappers.
//!
//! The pipeline identifies chunk contents by a 256-bit cryptographic digest
//! rendered as 64 lowercase hex characters, and the deterministic test
//! embedder buckets tokens with a stable 64-bit hash. Both digests are pure
//! functions of their input; they are named here and the wrappers state the
//! facts their callers rely on.

use std::hash::Hash;
use std::hash::Hasher;
use vstd::prelude::*;

verus! {

/// The 64 lowercase hex characters of the blake3 digest of the UTF-8 bytes
/// of `s`.
pub uninterp spec fn blake3_hex_of(s: Seq<char>) -> Seq<char>;

/// The xxHash64 value (seed 0) of `s` fed through `std::hash::Hash for str`.
pub uninterp spec fn xx64_of(s: Seq<char>) -> u64;

/// A character of a lowercase hexadecimal rendering.
pub open spec fn is_lower_hex_char(c: char) -> bool {
    ('0' <= c && c <= '9') || ('a' <= c && c <= 'f')
}

/// Relies on `blake3::hash` and `blake3::Hash::to_hex`: the digest is a pure
/// function of the input bytes, and `to_hex` renders its 32 bytes as two
/// lowercase hex characters each.
#[verifier::external_body]
pub fn hash_content(s: &str) -> (r: String)
    ensures
        r@ == blake3_hex_of(s@),
        r@.len() == 64,
        forall|i: int| 0 <= i < r@.len() ==> is_lower_hex_char(#[trigger] r@[i]),
{
    blake3::hash(s.as_bytes()).to_hex().as_str().to_owned()
}

/// Relies on `twox_hash::XxHash64`: with a fixed seed the hash is a pure
/// function of the bytes that `Hash for str` writes, hence of the string.
#[verifier::external_body]
pub fn token_hash64(token: &str) -> (r: u64)
    ensures
        r == xx64_of(token@),
{
    let mut hasher = twox_hash::XxHash64::with_seed(0);
    token.hash(&mut hasher);
    hasher.finish()
}

} // verus!
