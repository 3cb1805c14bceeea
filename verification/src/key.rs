//! The identity of a message under a topic's dedup policy.

use vstd::prelude::*;

use crate::hash;
use crate::policy::DedupHeaderName;
use crate::user_headers;

verus! {

/// The identity of one message under a topic's dedup policy: a 128-bit hash
/// of the configured header's value kind and bytes. Two distinct identities
/// collide with probability ~2^-128 per pair.
#[derive(Debug, Clone, Copy, PartialEq, Eq, Hash, PartialOrd, Ord)]
pub struct DedupKey(u128);

impl View for DedupKey {
    type V = u128;

    /// The hash.
    closed spec fn view(&self) -> u128 {
        self.0
    }
}

impl DedupKey {
    /// The key with the hash `raw`.
    pub fn from_raw(raw: u128) -> (key: Self)
        ensures
            key@ == raw,
    {
        DedupKey(raw)
    }

    /// The hash.
    pub fn as_raw(self) -> (raw: u128)
        ensures
            raw == self@,
    {
        self.0
    }

    /// Keys with the same hash are the same key.
    pub proof fn lemma_key_is_its_hash(a: DedupKey, b: DedupKey)
        ensures
            a == b <==> a@ == b@,
    {
    }
}

/// The key of a message whose user-header block is `block`, under the header
/// `name`.
pub open spec fn key_of(block: Seq<u8>, name: Seq<u8>) -> Option<u128> {
    match user_headers::identity(block, name) {
        Some(identity) => Some(hash::xxh3_128_digest(identity)),
        None => None,
    }
}

/// The hash of a key, where there is a key.
pub open spec fn raw_key(key: Option<DedupKey>) -> Option<u128> {
    match key {
        Some(found) => Some(found@),
        None => None,
    }
}

/// Extract the dedup key of one message from its raw user-header block.
///
/// `None` when the block is malformed or does not carry `header`: such a
/// message is admitted and not indexed.
pub fn dedup_key(user_headers: &[u8], header: &DedupHeaderName) -> (key: Option<DedupKey>)
    requires
        header.well_formed(),
    ensures
        raw_key(key) == key_of(user_headers@, header@),
        key is Some <==> user_headers::decode(user_headers@) is Some && exists|i: int|
            0 <= i < user_headers::decode(user_headers@)->0.len() && (
            #[trigger] user_headers::decode(user_headers@)->0[i]).key.content == header@,
        key matches Some(found) ==> exists|i: int|
            {
                &&& 0 <= i < user_headers::decode(user_headers@)->0.len()
                &&& (#[trigger] user_headers::decode(user_headers@)->0[i]).key.content == header@
                &&& forall|j: int|
                    0 <= j < i ==> (#[trigger] user_headers::decode(user_headers@)->0[j]).key.content != header@
                &&& found@ == hash::xxh3_128_digest(
                    seq![user_headers::decode(user_headers@)->0[i].value.kind]
                        + user_headers::decode(user_headers@)->0[i].value.content,
                )
            },
{
    proof {
        if let Some(entries) = user_headers::decode(user_headers@) {
            user_headers::lemma_first_named(entries, header@);
        }
    }
    match user_headers::header_identity(user_headers, header.as_bytes()) {
        Some(identity) => Some(DedupKey(hash::xxh3_128(identity.as_slice()))),
        None => None,
    }
}

} // verus!
