//! The one place the hash algorithm is named: xxHash3, 64-bit, seed 0.
use vstd::prelude::*;

verus! {

/// The 64-bit xxHash3 digest (seed 0, default secret) of a byte string, as
/// computed by `xxhash_rust::xxh3::xxh3_64`.
pub uninterp spec fn xxh3_64_of(bytes: Seq<u8>) -> u64;

/// Hashes a pre-serialized state blob with `xxhash_rust::xxh3::xxh3_64`.
///
/// Trusted: the contract only names the result. The digest depends on the
/// bytes alone (fixed seed and secret), so equal inputs give equal hashes;
/// nothing else about the algorithm is stated.
#[verifier::external_body]
pub fn hash_bytes(bytes: &[u8]) -> (h: u64)
    ensures
        h == xxh3_64_of(bytes@),
{
    xxhash_rust::xxh3::xxh3_64(bytes)
}

} // verus!
