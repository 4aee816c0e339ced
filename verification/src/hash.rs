//! The hash that spreads keys over shards.

use vstd::prelude::*;

verus! {

/// The 64-bit XXH3 hash of some bytes, with the default secret and seed 0.
pub uninterp spec fn xxh3(s: Seq<u8>) -> u64;

/// `xxhash_rust::xxh3::xxh3_64`: a number that the bytes alone decide.
#[verifier::external_body]
pub(crate) fn xxh3_64(b: &[u8]) -> (r: u64)
    ensures
        r == xxh3(b@),
{
    xxhash_rust::xxh3::xxh3_64(b)
}

} // verus!
