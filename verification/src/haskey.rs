//! Hashing of string keys into the 64-bit key pair: the primary hash comes
//! from seahash, the conflict hash from xxh3. Both are functions of the
//! string's bytes alone.

use vstd::prelude::*;

verus! {

/// What seahash::hash answers on the bytes of a string.
pub uninterp spec fn sea_hash_of(s: Seq<char>) -> u64;

/// What xxh3 answers on the bytes of a string.
pub uninterp spec fn xxh3_of(s: Seq<char>) -> u64;

/// Relies on seahash::hash: a 64-bit hash of the bytes, computed with a
/// prechosen seed and so a function of the string alone.
#[verifier::external_body]
fn sea_hash_str(s: &str) -> (r: u64)
    ensures
        r == sea_hash_of(s@),
{
    seahash::hash(s.as_bytes())
}

/// Relies on xxhash_rust::const_xxh3::xxh3_64: a 64-bit hash of the bytes,
/// a function of the string alone.
#[verifier::external_body]
fn xxh3_str(s: &str) -> (r: u64)
    ensures
        r == xxh3_of(s@),
{
    xxhash_rust::const_xxh3::xxh3_64(s.as_bytes())
}

/// The `(keyHash, conflictHash)` pair of a string key.
pub fn key_to_hash(key: &str) -> (r: (u64, u64))
    ensures
        r.0 == sea_hash_of(key@),
        r.1 == xxh3_of(key@),
{
    (sea_hash_str(key), xxh3_str(key))
}

} // verus!
