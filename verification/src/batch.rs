//! Deciding on batches and folding them into the index.
//!
//! Only the partition primary decides, immediately before a request becomes a
//! prepare. Dropped messages are removed from the batch there, so the decision
//! is part of the replicated payload and backups apply it without consulting
//! any index.

use std::collections::HashSet;

use vstd::prelude::*;

use crate::index::MessageDedupIndex;
use crate::index_model::{DedupMatch, IndexView};
use crate::key;
use crate::key::{dedup_key, DedupKey};
use crate::policy::MessageDedupPolicy;
use crate::user_headers;

verus! {

broadcast use vstd::std_specs::hash::group_hash_axioms;

/// One message of a batch.
#[derive(Debug, PartialEq, Eq)]
pub struct BatchMessage {
    /// Offset of the message past the batch's base offset.
    pub offset_delta: u32,
    /// The raw user-header block.
    pub user_headers: Vec<u8>,
}

/// A decoded batch of messages. The base offset and timestamp are those the
/// batch was stamped with when it was appended.
#[derive(Debug, PartialEq, Eq)]
pub struct Batch {
    pub base_offset: u64,
    pub base_timestamp: u64,
    pub messages: Vec<BatchMessage>,
}

/// What the primary should do with one `SendMessages` request.
#[derive(Debug, PartialEq, Eq)]
pub struct BatchVerdict {
    /// Per message, whether it is kept.
    pub keep: Vec<bool>,
    /// Keys of the kept messages, in kept order (`None` for a kept message
    /// without a key).
    pub kept_keys: Vec<Option<DedupKey>>,
    /// Messages dropped: committed duplicates, and repeats earlier in the
    /// same batch.
    pub dropped: u64,
    /// Whether any message matched an uncommitted occurrence. Such a request
    /// is refused transiently as a whole, never filtered.
    pub matched_uncommitted: bool,
}

impl BatchVerdict {
    /// Whether no message is dropped.
    pub fn keeps_all(&self) -> (all: bool)
        ensures
            all == (self.dropped == 0),
    {
        self.dropped == 0
    }

    /// Whether no message is kept.
    pub fn keeps_none(&self) -> (none: bool)
        ensures
            none == (self.kept_keys@.len() == 0),
    {
        self.kept_keys.len() == 0
    }
}

/// The raw keys of a run of keys.
pub open spec fn raw_keys(keys: Seq<Option<DedupKey>>) -> Seq<Option<u128>> {
    keys.map_values(|key: Option<DedupKey>| key::raw_key(key))
}

/// What a decision is taken against: the index, the time, the window, and the
/// op up to which everything has committed.
pub struct Screening {
    pub index: IndexView,
    pub now: u64,
    pub window_micros: u64,
    pub commit_op: u64,
}

impl Screening {
    /// How `key` matches.
    pub open spec fn lookup(self, key: u128) -> Option<DedupMatch> {
        self.index.lookup(key, self.now, self.window_micros, self.commit_op)
    }

    /// Whether message `i` of a batch with `keys` is kept: it has no key, or
    /// one that is not committed inside the window and that no earlier message
    /// of the batch carries.
    pub open spec fn keeps(self, keys: Seq<Option<u128>>, i: int) -> bool {
        match keys[i] {
            None => true,
            Some(key) => {
                &&& self.lookup(key) != Some(DedupMatch::Committed)
                &&& forall|j: int| 0 <= j < i ==> #[trigger] keys[j] != Some(key)
            },
        }
    }

    /// The keys of those of the first `n` messages that are kept.
    pub open spec fn kept_keys(self, keys: Seq<Option<u128>>, n: nat) -> Seq<Option<u128>>
        decreases n,
    {
        if n == 0 {
            Seq::empty()
        } else if self.keeps(keys, n - 1) {
            self.kept_keys(keys, (n - 1) as nat).push(keys[n - 1])
        } else {
            self.kept_keys(keys, (n - 1) as nat)
        }
    }

    /// How many of the first `n` messages are dropped.
    pub open spec fn dropped(self, keys: Seq<Option<u128>>, n: nat) -> nat
        decreases n,
    {
        if n == 0 {
            0
        } else if self.keeps(keys, n - 1) {
            self.dropped(keys, (n - 1) as nat)
        } else {
            self.dropped(keys, (n - 1) as nat) + 1
        }
    }

    /// Whether any message matches an uncommitted occurrence.
    pub open spec fn matches_uncommitted(self, keys: Seq<Option<u128>>) -> bool {
        exists|i: int| 0 <= i < keys.len() && self.is_uncommitted(#[trigger] keys[i])
    }

    /// Whether a key matches an uncommitted occurrence.
    pub open spec fn is_uncommitted(self, key: Option<u128>) -> bool {
        match key {
            Some(raw) => self.lookup(raw) == Some(DedupMatch::Uncommitted),
            None => false,
        }
    }

    /// Whether `verdict` is the decision on a batch with `keys`.
    pub open spec fn decides(self, keys: Seq<Option<u128>>, verdict: BatchVerdict) -> bool {
        &&& verdict.keep@ == Seq::new(keys.len(), |i: int| self.keeps(keys, i))
        &&& raw_keys(verdict.kept_keys@) == self.kept_keys(keys, keys.len())
        &&& verdict.dropped == self.dropped(keys, keys.len())
        &&& verdict.matched_uncommitted == self.matches_uncommitted(keys)
    }
}

/// Decide which messages of a batch with `keys` are duplicates.
pub fn classify_keys(
    keys: &Vec<Option<DedupKey>>,
    index: &MessageDedupIndex,
    now: u64,
    window_micros: u64,
    commit_op: u64,
) -> (verdict: BatchVerdict)
    ensures
        (Screening { index: index@, now, window_micros, commit_op }).decides(
            raw_keys(keys@),
            verdict,
        ),
        verdict.keep@.len() == keys@.len(),
        forall|i: int|
            0 <= i < keys@.len() ==> (#[trigger] verdict.keep@[i] <==> keys@[i] is None || {
                &&& !(index@.committed.contains_key(keys@[i]->0@)
                    && index@.committed[keys@[i]->0@].timestamp + window_micros > now && now
                    < u64::MAX)
                &&& forall|j: int|
                    0 <= j < i && (#[trigger] keys@[j]) is Some ==> keys@[j]->0@ != keys@[i]->0@
            }),
        verdict.dropped + verdict.kept_keys@.len() == keys@.len(),
        verdict.matched_uncommitted <==> exists|i: int|
            {
                &&& 0 <= i < keys@.len()
                &&& (#[trigger] keys@[i]) is Some
                &&& !(index@.committed.contains_key(keys@[i]->0@)
                    && index@.committed[keys@[i]->0@].timestamp + window_micros > now && now
                    < u64::MAX)
                &&& index@.pending.contains_key(keys@[i]->0@)
                &&& index@.pending[keys@[i]->0@].op > commit_op
            },
{
    let ghost screening = Screening { index: index@, now, window_micros, commit_op };
    let ghost raws = raw_keys(keys@);
    let mut keep: Vec<bool> = Vec::new();
    let mut kept_keys: Vec<Option<DedupKey>> = Vec::new();
    let mut dropped: u64 = 0;
    let mut matched_uncommitted = false;
    let mut seen_in_batch: HashSet<u128> = HashSet::new();
    let mut i: usize = 0;
    assert(raw_keys(kept_keys@) =~= Seq::empty());
    while i < keys.len()
        invariant
            i <= keys@.len(),
            screening == (Screening { index: index@, now, window_micros, commit_op }),
            raws == raw_keys(keys@),
            keep@.len() == i,
            forall|j: int| 0 <= j < i ==> #[trigger] keep@[j] == screening.keeps(raws, j),
            raw_keys(kept_keys@) == screening.kept_keys(raws, i as nat),
            dropped == screening.dropped(raws, i as nat),
            dropped <= i,
            dropped + kept_keys@.len() == i,
            matched_uncommitted == exists|j: int|
                0 <= j < i && screening.is_uncommitted(#[trigger] raws[j]),
            forall|raw: u128| #[trigger]
                seen_in_batch@.contains(raw) <==> {
                    &&& screening.lookup(raw) != Some(DedupMatch::Committed)
                    &&& exists|j: int| 0 <= j < i && #[trigger] raws[j] == Some(raw)
                },
        decreases keys@.len() - i,
    {
        let ghost kept_before = kept_keys@;
        assert(raws[i as int] == key::raw_key(keys@[i as int]));
        match keys[i] {
            None => {
                keep.push(true);
                kept_keys.push(None);
                assert(raw_keys(kept_keys@) =~= raw_keys(kept_before).push(None));
            },
            Some(key) => {
                let raw = key.as_raw();
                if seen_in_batch.contains(&raw) {
                    keep.push(false);
                    dropped += 1;
                } else {
                    match index.lookup(key, now, window_micros, commit_op) {
                        Some(DedupMatch::Committed) => {
                            keep.push(false);
                            dropped += 1;
                        },
                        found => {
                            if let Some(DedupMatch::Uncommitted) = found {
                                matched_uncommitted = true;
                            }
                            seen_in_batch.insert(raw);
                            keep.push(true);
                            kept_keys.push(Some(key));
                            assert(raw_keys(kept_keys@) =~= raw_keys(kept_before).push(Some(raw)));
                        },
                    }
                }
            },
        }
        i += 1;
    }
    let verdict = BatchVerdict { keep, kept_keys, dropped, matched_uncommitted };
    assert(verdict.keep@ =~= Seq::new(raws.len(), |j: int| screening.keeps(raws, j)));
    proof {
        assert forall|j: int| 0 <= j < keys@.len() implies #[trigger] raws[j] == key::raw_key(
            keys@[j],
        ) by {}
        assert forall|j: int| 0 <= j < keys@.len() implies (#[trigger] verdict.keep@[j]
            <==> keys@[j] is None || {
            &&& !(index@.committed.contains_key(keys@[j]->0@)
                && index@.committed[keys@[j]->0@].timestamp + window_micros > now && now
                < u64::MAX)
            &&& forall|m: int|
                0 <= m < j && (#[trigger] keys@[m]) is Some ==> keys@[m]->0@ != keys@[j]->0@
        }) by {
            assert(raws[j] == key::raw_key(keys@[j]));
            if verdict.keep@[j] && keys@[j] is Some {
                assert forall|m: int| 0 <= m < j && (#[trigger] keys@[m]) is Some implies
                    keys@[m]->0@ != keys@[j]->0@ by {
                    assert(raws[m] == key::raw_key(keys@[m]));
                }
            }
            if !verdict.keep@[j] && screening.lookup(raws[j]->0) != Some(DedupMatch::Committed) {
                let m = choose|m: int| 0 <= m < j && #[trigger] raws[m] == raws[j];
                assert(keys@[m] is Some);
            }
        }
        if exists|j: int| 0 <= j < raws.len() && screening.is_uncommitted(#[trigger] raws[j]) {
            let j = choose|j: int|
                0 <= j < raws.len() && screening.is_uncommitted(#[trigger] raws[j]);
            assert(keys@[j] is Some);
        }
        if exists|i: int|
            {
                &&& 0 <= i < keys@.len()
                &&& (#[trigger] keys@[i]) is Some
                &&& !(index@.committed.contains_key(keys@[i]->0@)
                    && index@.committed[keys@[i]->0@].timestamp + window_micros > now && now
                    < u64::MAX)
                &&& index@.pending.contains_key(keys@[i]->0@)
                &&& index@.pending[keys@[i]->0@].op > commit_op
            } {
            let i = choose|i: int|
                {
                    &&& 0 <= i < keys@.len()
                    &&& (#[trigger] keys@[i]) is Some
                    &&& !(index@.committed.contains_key(keys@[i]->0@)
                        && index@.committed[keys@[i]->0@].timestamp + window_micros > now && now
                        < u64::MAX)
                    &&& index@.pending.contains_key(keys@[i]->0@)
                    &&& index@.pending[keys@[i]->0@].op > commit_op
                };
            assert(screening.is_uncommitted(raws[i]));
        }
    }
    verdict
}

/// The keys of the messages of a batch under the header `name`.
pub open spec fn batch_keys(batch: Batch, name: Seq<u8>) -> Seq<Option<u128>> {
    Seq::new(
        batch.messages@.len(),
        |i: int| key::key_of(batch.messages@[i].user_headers@, name),
    )
}

/// Decide which messages of `batch` are duplicates.
///
/// A message is dropped when its key has a committed occurrence inside the
/// window as of `now`, or when an earlier message of the same batch carried
/// the same key (first wins). A match against an uncommitted occurrence is
/// only flagged: the caller defers the whole request.
pub fn classify_batch(
    batch: &Batch,
    policy: &MessageDedupPolicy,
    index: &MessageDedupIndex,
    now: u64,
    commit_op: u64,
) -> (verdict: BatchVerdict)
    requires
        policy.header.well_formed(),
    ensures
        (Screening {
            index: index@,
            now,
            window_micros: policy.window.micros,
            commit_op,
        }).decides(batch_keys(*batch, policy.header@), verdict),
{
    let window = policy.window_micros();
    let ghost raws = batch_keys(*batch, policy.header@);
    let mut keys: Vec<Option<DedupKey>> = Vec::new();
    let mut i: usize = 0;
    while i < batch.messages.len()
        invariant
            i <= batch.messages@.len(),
            policy.header.well_formed(),
            raws == batch_keys(*batch, policy.header@),
            raw_keys(keys@) == raws.take(i as int),
        decreases batch.messages@.len() - i,
    {
        let ghost before = keys@;
        let key = dedup_key(batch.messages[i].user_headers.as_slice(), &policy.header);
        keys.push(key);
        assert(raw_keys(keys@) =~= raw_keys(before).push(key::raw_key(key)));
        i += 1;
        assert(raws.take(i as int) =~= raws.take(i - 1).push(raws[i - 1]));
    }
    assert(raws.take(raws.len() as int) =~= raws);
    classify_keys(&keys, index, now, window, commit_op)
}

/// A keyed message of a stamped batch.
pub struct StampedKey {
    pub key: u128,
    pub offset: u64,
    pub timestamp: u64,
}

/// The keyed ones among the first `n` messages of a stamped batch, each with
/// its absolute offset and the batch's timestamp.
pub open spec fn stamped_prefix(batch: Batch, name: Seq<u8>, n: nat) -> Seq<StampedKey>
    decreases n,
{
    if n == 0 {
        Seq::empty()
    } else {
        let message = batch.messages@[n - 1];
        let before = stamped_prefix(batch, name, (n - 1) as nat);
        match key::key_of(message.user_headers@, name) {
            Some(key) => before.push(
                StampedKey {
                    key,
                    offset: (batch.base_offset + message.offset_delta) as u64,
                    timestamp: batch.base_timestamp,
                },
            ),
            None => before,
        }
    }
}

/// The keyed messages of a stamped batch; none when the batch did not decode.
pub open spec fn stamped(batch: Option<&Batch>, name: Seq<u8>) -> Seq<StampedKey> {
    match batch {
        Some(decoded) => stamped_prefix(*decoded, name, decoded.messages@.len()),
        None => Seq::empty(),
    }
}

/// A stamped key as the triple it is returned as.
pub open spec fn stamped_view(key: (DedupKey, u64, u64)) -> StampedKey {
    StampedKey { key: key.0@, offset: key.1, timestamp: key.2 }
}

/// Stamped keys as the triples they are returned as.
pub open spec fn stamped_views(keys: Seq<(DedupKey, u64, u64)>) -> Seq<StampedKey> {
    keys.map_values(|key: (DedupKey, u64, u64)| stamped_view(key))
}

/// Whether every keyed message of the batch has an offset that fits a `u64`.
pub open spec fn offsets_fit(batch: Option<&Batch>, name: Seq<u8>) -> bool {
    batch matches Some(decoded) ==> forall|i: int|
        0 <= i < decoded.messages@.len() && user_headers::identity(
            (#[trigger] decoded.messages@[i]).user_headers@,
            name,
        ) is Some ==> decoded.base_offset + decoded.messages@[i].offset_delta <= u64::MAX
}

/// How many of the first `n` messages of a batch carry the header `name`.
pub open spec fn keyed_prefix(batch: Batch, name: Seq<u8>, n: nat) -> nat
    decreases n,
{
    if n == 0 {
        0
    } else {
        keyed_prefix(batch, name, (n - 1) as nat) + if user_headers::identity(
            batch.messages@[n - 1].user_headers@,
            name,
        ) is Some {
            1nat
        } else {
            0nat
        }
    }
}

/// How many messages of a batch carry the header `name`; none when it did not
/// decode.
pub open spec fn keyed_count(batch: Option<&Batch>, name: Seq<u8>) -> nat {
    match batch {
        Some(decoded) => keyed_prefix(*decoded, name, decoded.messages@.len()),
        None => 0,
    }
}

/// There are as many stamped keys as messages that carry the header.
proof fn lemma_stamped_prefix_len(batch: Batch, name: Seq<u8>, n: nat)
    ensures
        stamped_prefix(batch, name, n).len() == keyed_prefix(batch, name, n),
    decreases n,
{
    if n > 0 {
        lemma_stamped_prefix_len(batch, name, (n - 1) as nat);
    }
}

/// Keys of an appended, stamped batch record with their absolute offsets and
/// the batch timestamp, as every replica reads them from the same stamped
/// record. `batch` is `None` when the record does not decode; it then has no
/// keys.
pub fn stamped_batch_keys(policy: &MessageDedupPolicy, batch: Option<&Batch>) -> (keys: Vec<
    (DedupKey, u64, u64),
>)
    requires
        policy.header.well_formed(),
        offsets_fit(batch, policy.header@),
    ensures
        stamped_views(keys@) == stamped(batch, policy.header@),
{
    let mut keys: Vec<(DedupKey, u64, u64)> = Vec::new();
    let ghost name = policy.header@;
    assert(stamped_views(keys@) =~= Seq::empty());
    match batch {
        None => {},
        Some(decoded) => {
            let mut i: usize = 0;
            while i < decoded.messages.len()
                invariant
                    i <= decoded.messages@.len(),
                    batch == Some(decoded),
                    name == policy.header@,
                    policy.header.well_formed(),
                    offsets_fit(batch, name),
                    stamped_views(keys@) == stamped_prefix(*decoded, name, i as nat),
                decreases decoded.messages@.len() - i,
            {
                let ghost before = keys@;
                let message = &decoded.messages[i];
                assert(decoded.messages@[i as int] == *message);
                if let Some(key) = dedup_key(message.user_headers.as_slice(), &policy.header) {
                    let offset = decoded.base_offset + message.offset_delta as u64;
                    let triple = (key, offset, decoded.base_timestamp);
                    keys.push(triple);
                    assert(stamped_views(keys@) =~= stamped_views(before).push(
                        stamped_view(triple),
                    ));
                }
                i += 1;
            }
        },
    }
    keys
}

/// Pending occurrences of `keys`, appended by `op`, noted in order.
pub open spec fn fold_pending(index: IndexView, keys: Seq<StampedKey>, op: u64) -> IndexView
    decreases keys.len(),
{
    if keys.len() == 0 {
        index
    } else {
        let last = keys.last();
        fold_pending(index, keys.drop_last(), op).record_pending(
            last.key,
            last.offset,
            last.timestamp,
            op,
        )
    }
}

/// Committed occurrences of `keys`, appended by `op`, indexed in order.
pub open spec fn fold_committed(
    index: IndexView,
    keys: Seq<StampedKey>,
    op: u64,
    window_micros: u64,
) -> IndexView
    decreases keys.len(),
{
    if keys.len() == 0 {
        index
    } else {
        let last = keys.last();
        fold_committed(index, keys.drop_last(), op, window_micros).record_committed(
            last.key,
            last.offset,
            last.timestamp,
            op,
            window_micros,
        )
    }
}

/// Fold an appended, uncommitted batch into the pending half.
pub fn record_pending_batch(
    index: &mut MessageDedupIndex,
    policy: &MessageDedupPolicy,
    batch: Option<&Batch>,
    op: u64,
)
    requires
        old(index).well_formed(),
        old(index)@.recordings + keyed_count(batch, policy.header@) <= u64::MAX,
        policy.header.well_formed(),
        offsets_fit(batch, policy.header@),
    ensures
        final(index).well_formed(),
        final(index)@ == fold_pending(old(index)@, stamped(batch, policy.header@), op),
{
    let keys = stamped_batch_keys(policy, batch);
    let ghost start = index@;
    let ghost all = stamped_views(keys@);
    assert(all.len() == keys@.len());
    proof {
        if let Some(decoded) = batch {
            lemma_stamped_prefix_len(*decoded, policy.header@, decoded.messages@.len());
        }
    }
    let mut i: usize = 0;
    while i < keys.len()
        invariant
            i <= keys@.len(),
            all == stamped_views(keys@),
            index.well_formed(),
            index@ == fold_pending(start, all.take(i as int), op),
            index@.recordings <= start.recordings + i,
            start.recordings + keys@.len() <= u64::MAX,
        decreases keys@.len() - i,
    {
        let (key, offset, timestamp) = keys[i];
        index.record_pending(key, offset, timestamp, op);
        proof {
            assert(all.take(i + 1).drop_last() =~= all.take(i as int));
            assert(all[i as int] == stamped_view(keys@[i as int]));
        }
        i += 1;
    }
    assert(all.take(all.len() as int) =~= all);
}

/// Fold a committed batch into the committed half and sweep the pending
/// occurrences it supersedes.
pub fn record_committed_batch(
    index: &mut MessageDedupIndex,
    policy: &MessageDedupPolicy,
    batch: Option<&Batch>,
    op: u64,
)
    requires
        old(index).well_formed(),
        old(index)@.recordings + keyed_count(batch, policy.header@) <= u64::MAX,
        policy.header.well_formed(),
        offsets_fit(batch, policy.header@),
    ensures
        final(index).well_formed(),
        final(index)@ == fold_committed(
            old(index)@,
            stamped(batch, policy.header@),
            op,
            policy.window.micros,
        ).sweep_committed_through(op),
{
    let window = policy.window_micros();
    let keys = stamped_batch_keys(policy, batch);
    let ghost start = index@;
    let ghost all = stamped_views(keys@);
    assert(all.len() == keys@.len());
    proof {
        if let Some(decoded) = batch {
            lemma_stamped_prefix_len(*decoded, policy.header@, decoded.messages@.len());
        }
    }
    let mut i: usize = 0;
    while i < keys.len()
        invariant
            i <= keys@.len(),
            all == stamped_views(keys@),
            index.well_formed(),
            index@ == fold_committed(start, all.take(i as int), op, window),
            index@.recordings <= start.recordings + i,
            start.recordings + keys@.len() <= u64::MAX,
        decreases keys@.len() - i,
    {
        let (key, offset, timestamp) = keys[i];
        let ghost before = index@;
        index.record_committed(key, offset, timestamp, op, window);
        proof {
            before.lemma_record_committed_numbers(key@, offset, timestamp, op, window);
            assert(all.take(i + 1).drop_last() =~= all.take(i as int));
            assert(all[i as int] == stamped_view(keys@[i as int]));
        }
        i += 1;
    }
    assert(all.take(all.len() as int) =~= all);
    index.sweep_committed_through(op);
}

} // verus!
