//! The 128-bit hash behind dedup keys and index fingerprints.

use vstd::prelude::*;

verus! {

/// The XXH3 128-bit hash of a byte sequence under the default seed and secret.
pub uninterp spec fn xxh3_128_digest(bytes: Seq<u8>) -> u128;

/// `twox_hash::XxHash3_128`: a hasher made by `new` and fed the bytes with
/// `write`, whose `finish_128` depends on the bytes alone. What the hash of
/// given bytes is, and that distinct bytes rarely share one, is not stated.
#[verifier::external_body]
pub(crate) fn xxh3_128(bytes: &[u8]) -> (digest: u128)
    ensures
        digest == xxh3_128_digest(bytes@),
{
    let mut hasher = twox_hash::XxHash3_128::new();
    hasher.write(bytes);
    hasher.finish_128()
}

} // verus!
