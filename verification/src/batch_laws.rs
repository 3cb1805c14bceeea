//! What a decision on a batch, and the folding of one, come to.

use vstd::prelude::*;

use crate::batch;
use crate::batch::{Batch, BatchVerdict, Screening, StampedKey};
use crate::index_model::IndexView;
use crate::key;
use crate::key::DedupKey;

verus! {

/// A message is dropped if and only if it has a key, and a committed message
/// with that key is less than the window old, or an earlier message of the
/// batch has the key too.
pub proof fn lemma_dropped_meaning(screening: Screening, keys: Seq<Option<u128>>, i: int)
    requires
        0 <= i < keys.len(),
    ensures
        !screening.keeps(keys, i) <==> keys[i] is Some && ({
            let key = keys[i]->0;
            ||| screening.index.committed.contains_key(key)
                && screening.index.committed[key].timestamp + screening.window_micros
                > screening.now && screening.now < u64::MAX
            ||| exists|j: int| 0 <= j < i && #[trigger] keys[j] == keys[i]
        }),
{
}

/// The messages that the first `n` leave, as the places of an increasing run.
proof fn lemma_kept_places(screening: Screening, keys: Seq<Option<u128>>, n: nat) -> (places: Seq<
    int,
>)
    requires
        n <= keys.len(),
    ensures
        places.len() == screening.kept_keys(keys, n).len(),
        places.len() + screening.dropped(keys, n) == n,
        forall|p: int, q: int| 0 <= p < q < places.len() ==> places[p] < places[q],
        forall|p: int|
            0 <= p < places.len() ==> {
                &&& 0 <= #[trigger] places[p] < n
                &&& screening.keeps(keys, places[p])
                &&& screening.kept_keys(keys, n)[p] == keys[places[p]]
            },
        forall|i: int| 0 <= i < n && screening.keeps(keys, i) ==> places.contains(i),
    decreases n,
{
    if n == 0 {
        Seq::empty()
    } else {
        let before = lemma_kept_places(screening, keys, (n - 1) as nat);
        if screening.keeps(keys, n - 1) {
            let places = before.push(n - 1);
            assert forall|i: int| 0 <= i < n && screening.keeps(keys, i) implies places.contains(
                i,
            ) by {
                if i < n - 1 {
                    assert(before.contains(i));
                    let p = choose|p: int| 0 <= p < before.len() && before[p] == i;
                    assert(places[p] == i);
                } else {
                    assert(places[before.len() as int] == i);
                }
            }
            places
        } else {
            assert forall|i: int| 0 <= i < n && screening.keeps(keys, i) implies before.contains(
                i,
            ) by {
                assert(i < n - 1);
            }
            before
        }
    }
}

/// What a verdict says of a batch. Message `i` is marked as dropped exactly
/// when it repeats a committed message inside the window or an earlier message
/// of the batch. The kept keys are those of the messages marked as kept, in
/// their order; the rest are counted as dropped. The batch is flagged exactly
/// when some message is no committed duplicate and has its key on an
/// uncommitted message above the commit point.
pub proof fn lemma_verdict_meaning(
    screening: Screening,
    keys: Seq<Option<u128>>,
    verdict: BatchVerdict,
) -> (places: Seq<int>)
    requires
        screening.decides(keys, verdict),
    ensures
        verdict.keep@.len() == keys.len(),
        forall|i: int|
            0 <= i < keys.len() ==> (#[trigger] verdict.keep@[i] <==> keys[i] is None || ({
                let key = keys[i]->0;
                &&& !(screening.index.committed.contains_key(key)
                    && screening.index.committed[key].timestamp + screening.window_micros
                    > screening.now && screening.now < u64::MAX)
                &&& forall|j: int| 0 <= j < i ==> #[trigger] keys[j] != keys[i]
            })),
        places.len() == verdict.kept_keys@.len(),
        verdict.dropped + places.len() == keys.len(),
        forall|p: int, q: int| 0 <= p < q < places.len() ==> places[p] < places[q],
        forall|p: int|
            0 <= p < places.len() ==> {
                &&& 0 <= #[trigger] places[p] < keys.len()
                &&& verdict.keep@[places[p]]
                &&& verdict.kept_keys@[p] is Some <==> keys[places[p]] is Some
                &&& verdict.kept_keys@[p] matches Some(kept) ==> keys[places[p]] == Some(kept@)
            },
        forall|i: int| 0 <= i < keys.len() && #[trigger] verdict.keep@[i] ==> places.contains(i),
        verdict.matched_uncommitted <==> exists|i: int|
            {
                &&& 0 <= i < keys.len()
                &&& #[trigger] keys[i] is Some
                &&& !(screening.index.committed.contains_key(keys[i]->0)
                    && screening.index.committed[keys[i]->0].timestamp + screening.window_micros
                    > screening.now && screening.now < u64::MAX)
                &&& screening.index.pending.contains_key(keys[i]->0)
                &&& screening.index.pending[keys[i]->0].op > screening.commit_op
            },
{
    let places = lemma_kept_places(screening, keys, keys.len());
    let kept = screening.kept_keys(keys, keys.len());
    assert(batch::raw_keys(verdict.kept_keys@).len() == verdict.kept_keys@.len());
    assert forall|i: int| 0 <= i < keys.len() implies #[trigger] verdict.keep@[i]
        == screening.keeps(keys, i) by {}
    assert forall|p: int| 0 <= p < places.len() implies {
        &&& 0 <= #[trigger] places[p] < keys.len()
        &&& verdict.keep@[places[p]]
        &&& verdict.kept_keys@[p] is Some <==> keys[places[p]] is Some
        &&& verdict.kept_keys@[p] matches Some(kept_key) ==> keys[places[p]] == Some(kept_key@)
    } by {
        assert(batch::raw_keys(verdict.kept_keys@)[p] == key::raw_key(verdict.kept_keys@[p]));
        assert(kept[p] == keys[places[p]]);
        assert(verdict.keep@[places[p]] == screening.keeps(keys, places[p]));
    }
    if verdict.matched_uncommitted {
        let i = choose|i: int| 0 <= i < keys.len() && screening.is_uncommitted(#[trigger] keys[i]);
        assert(keys[i] is Some);
    }
    if exists|i: int|
        {
            &&& 0 <= i < keys.len()
            &&& #[trigger] keys[i] is Some
            &&& !(screening.index.committed.contains_key(keys[i]->0)
                && screening.index.committed[keys[i]->0].timestamp + screening.window_micros
                > screening.now && screening.now < u64::MAX)
            &&& screening.index.pending.contains_key(keys[i]->0)
            &&& screening.index.pending[keys[i]->0].op > screening.commit_op
        } {
        let i = choose|i: int|
            {
                &&& 0 <= i < keys.len()
                &&& #[trigger] keys[i] is Some
                &&& !(screening.index.committed.contains_key(keys[i]->0)
                    && screening.index.committed[keys[i]->0].timestamp + screening.window_micros
                    > screening.now && screening.now < u64::MAX)
                &&& screening.index.pending.contains_key(keys[i]->0)
                &&& screening.index.pending[keys[i]->0].op > screening.commit_op
            };
        assert(screening.is_uncommitted(keys[i]));
    }
    places
}

/// The keys of a batch are those of its messages, one for one.
pub proof fn lemma_batch_keys_meaning(batch: Batch, name: Seq<u8>)
    ensures
        batch::batch_keys(batch, name).len() == batch.messages@.len(),
        forall|i: int|
            0 <= i < batch.messages@.len() ==> #[trigger] batch::batch_keys(batch, name)[i]
                == key::key_of(batch.messages@[i].user_headers@, name),
{
}

proof fn lemma_stamped_places(batch: Batch, name: Seq<u8>, n: nat) -> (places: Seq<int>)
    requires
        n <= batch.messages@.len(),
        batch::offsets_fit(Some(&batch), name),
    ensures
        places.len() == batch::stamped_prefix(batch, name, n).len(),
        forall|p: int, q: int| 0 <= p < q < places.len() ==> places[p] < places[q],
        forall|p: int|
            0 <= p < places.len() ==> {
                let stamped = batch::stamped_prefix(batch, name, n)[p];
                let message = batch.messages@[places[p]];
                &&& 0 <= #[trigger] places[p] < n
                &&& key::key_of(message.user_headers@, name) == Some(stamped.key)
                &&& stamped.offset == batch.base_offset + message.offset_delta
                &&& stamped.timestamp == batch.base_timestamp
            },
        forall|i: int|
            0 <= i < n && key::key_of((#[trigger] batch.messages@[i]).user_headers@, name) is Some
                ==> places.contains(i),
    decreases n,
{
    if n == 0 {
        Seq::empty()
    } else {
        let before = lemma_stamped_places(batch, name, (n - 1) as nat);
        let message = batch.messages@[n - 1];
        if key::key_of(message.user_headers@, name) is Some {
            let places = before.push(n - 1);
            assert forall|i: int|
                0 <= i < n && key::key_of(
                    (#[trigger] batch.messages@[i]).user_headers@,
                    name,
                ) is Some implies places.contains(i) by {
                if i < n - 1 {
                    assert(before.contains(i));
                    let p = choose|p: int| 0 <= p < before.len() && before[p] == i;
                    assert(places[p] == i);
                } else {
                    assert(places[before.len() as int] == i);
                }
            }
            assert(batch.base_offset + message.offset_delta <= u64::MAX);
            places
        } else {
            before
        }
    }
}

/// The stamped keys of a batch are those of its keyed messages, in their order,
/// each at the batch's base offset plus the message's delta and at the batch's
/// timestamp.
pub proof fn lemma_stamped_meaning(batch: Batch, name: Seq<u8>) -> (places: Seq<int>)
    requires
        batch::offsets_fit(Some(&batch), name),
    ensures
        places.len() == batch::stamped(Some(&batch), name).len(),
        forall|p: int, q: int| 0 <= p < q < places.len() ==> places[p] < places[q],
        forall|p: int|
            0 <= p < places.len() ==> {
                let stamped = batch::stamped(Some(&batch), name)[p];
                let message = batch.messages@[places[p]];
                &&& 0 <= #[trigger] places[p] < batch.messages@.len()
                &&& key::key_of(message.user_headers@, name) == Some(stamped.key)
                &&& stamped.offset == batch.base_offset + message.offset_delta
                &&& stamped.timestamp == batch.base_timestamp
            },
        forall|i: int|
            0 <= i < batch.messages@.len() && key::key_of(
                (#[trigger] batch.messages@[i]).user_headers@,
                name,
            ) is Some ==> places.contains(i),
{
    lemma_stamped_places(batch, name, batch.messages@.len())
}

/// Stamped keys are seen as they are returned: the key, its offset, its
/// timestamp.
pub proof fn lemma_stamped_keys_are_seen_as_returned(keys: Seq<(DedupKey, u64, u64)>)
    ensures
        batch::stamped_views(keys).len() == keys.len(),
        forall|i: int|
            0 <= i < keys.len() ==> {
                let seen = #[trigger] batch::stamped_views(keys)[i];
                &&& seen.key == keys[i].0@
                &&& seen.offset == keys[i].1
                &&& seen.timestamp == keys[i].2
            },
{
}

/// Raw keys are those of the keys, one for one.
pub proof fn lemma_raw_keys_meaning(keys: Seq<Option<DedupKey>>)
    ensures
        batch::raw_keys(keys).len() == keys.len(),
        forall|i: int|
            0 <= i < keys.len() ==> {
                &&& (#[trigger] batch::raw_keys(keys)[i]) is Some <==> keys[i] is Some
                &&& keys[i] matches Some(key) ==> batch::raw_keys(keys)[i] == Some(key@)
            },
{
}

/// A record that does not decode has no keys.
pub proof fn lemma_undecoded_batch_has_no_keys(name: Seq<u8>)
    ensures
        batch::stamped(None, name).len() == 0,
{
}

/// Folding in runs of pending keys one after the other is folding them in as
/// one run; a run of one key records it; an empty run changes nothing.
pub proof fn lemma_pending_folds_in_order(
    index: IndexView,
    left: Seq<StampedKey>,
    right: Seq<StampedKey>,
    op: u64,
)
    ensures
        batch::fold_pending(index, left + right, op) == batch::fold_pending(
            batch::fold_pending(index, left, op),
            right,
            op,
        ),
        left.len() == 0 ==> batch::fold_pending(index, left, op) == index,
        left.len() == 1 ==> batch::fold_pending(index, left, op) == index.record_pending(
            left[0].key,
            left[0].offset,
            left[0].timestamp,
            op,
        ),
    decreases right.len(),
{
    reveal_with_fuel(batch::fold_pending, 2);
    if right.len() == 0 {
        assert(left + right =~= left);
    } else {
        lemma_pending_folds_in_order(index, left, right.drop_last(), op);
        assert((left + right).drop_last() =~= left + right.drop_last());
    }
}

/// Folding in runs of committed keys one after the other is folding them in as
/// one run; a run of one key indexes it; an empty run changes nothing.
pub proof fn lemma_committed_folds_in_order(
    index: IndexView,
    left: Seq<StampedKey>,
    right: Seq<StampedKey>,
    op: u64,
    window_micros: u64,
)
    ensures
        batch::fold_committed(index, left + right, op, window_micros) == batch::fold_committed(
            batch::fold_committed(index, left, op, window_micros),
            right,
            op,
            window_micros,
        ),
        left.len() == 0 ==> batch::fold_committed(index, left, op, window_micros) == index,
        left.len() == 1 ==> batch::fold_committed(index, left, op, window_micros)
            == index.record_committed(
            left[0].key,
            left[0].offset,
            left[0].timestamp,
            op,
            window_micros,
        ),
    decreases right.len(),
{
    reveal_with_fuel(batch::fold_committed, 2);
    if right.len() == 0 {
        assert(left + right =~= left);
    } else {
        lemma_committed_folds_in_order(index, left, right.drop_last(), op, window_micros);
        assert((left + right).drop_last() =~= left + right.drop_last());
    }
}

/// A run of pending keys leaves every other key as it was, and everything but
/// the pending half and the numbering.
pub proof fn lemma_fold_pending_leaves_other_keys(
    index: IndexView,
    keys: Seq<StampedKey>,
    op: u64,
    key: u128,
)
    ensures
        ({
            let after = batch::fold_pending(index, keys, op);
            &&& (forall|i: int| 0 <= i < keys.len() ==> (#[trigger] keys[i]).key != key) ==> {
                &&& after.pending.contains_key(key) <==> index.pending.contains_key(key)
                &&& after.pending[key] == index.pending[key]
            }
            &&& after.committed == index.committed
            &&& after.order == index.order
            &&& after.newest_timestamp == index.newest_timestamp
            &&& after.entries_max == index.entries_max
            &&& after.counters == index.counters
            &&& index.recordings <= after.recordings <= index.recordings + keys.len()
        }),
    decreases keys.len(),
{
    if keys.len() > 0 {
        let front = keys.drop_last();
        lemma_fold_pending_leaves_other_keys(index, front, op, key);
        if forall|i: int| 0 <= i < keys.len() ==> (#[trigger] keys[i]).key != key {
            assert(keys[keys.len() - 1].key != key);
            assert forall|i: int| 0 <= i < front.len() implies (#[trigger] front[i]).key != key by {
                assert(keys[i] == front[i]);
            }
        }
    }
}

/// After a run of pending keys, each of them is pending as its last message
/// has it, under the op of the run.
pub proof fn lemma_fold_pending_records_the_last(
    index: IndexView,
    keys: Seq<StampedKey>,
    op: u64,
    i: int,
)
    requires
        0 <= i < keys.len(),
        forall|j: int| i < j < keys.len() ==> (#[trigger] keys[j]).key != keys[i].key,
    ensures
        ({
            let after = batch::fold_pending(index, keys, op);
            &&& after.pending.contains_key(keys[i].key)
            &&& after.pending[keys[i].key].offset == keys[i].offset
            &&& after.pending[keys[i].key].timestamp == keys[i].timestamp
            &&& after.pending[keys[i].key].op == op
        }),
    decreases keys.len(),
{
    if i < keys.len() - 1 {
        let front = keys.drop_last();
        assert(keys[keys.len() - 1].key != keys[i].key);
        assert forall|j: int| i < j < front.len() implies (#[trigger] front[j]).key
            != front[i].key by {
            assert(keys[j] == front[j]);
        }
        lemma_fold_pending_records_the_last(index, front, op, i);
    }
}

} // verus!
