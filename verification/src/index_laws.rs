//! What the operations of the index come to, in plain integers.
//!
//! Every law here speaks of what is held before and after an operation, and of
//! timestamps, windows, offsets and ops as integers.

use vstd::prelude::*;

use crate::index_model;
use crate::index_model::{DedupMatch, IndexView, Occurrence};
use crate::laws;
use crate::laws::LogRecord;
use crate::wire;

verus! {

/// A key is a duplicate if and only if a committed occurrence of it is less
/// than the window old, the end of time aside; else it is uncommitted if and
/// only if a pending occurrence of it is above the commit point.
pub proof fn lemma_lookup_meaning(
    index: IndexView,
    key: u128,
    now: u64,
    window_micros: u64,
    commit_op: u64,
)
    ensures
        ({
            let found = index.lookup(key, now, window_micros, commit_op);
            let duplicate = index.committed.contains_key(key) && index.committed[key].timestamp
                + window_micros > now && now < u64::MAX;
            let uncommitted = index.pending.contains_key(key) && index.pending[key].op > commit_op;
            &&& found == Some(DedupMatch::Committed) <==> duplicate
            &&& found == Some(DedupMatch::Uncommitted) <==> !duplicate && uncommitted
            &&& found is None <==> !duplicate && !uncommitted
        }),
{
}

/// An index is valid exactly when its order lists each committed key once and
/// no other, and it holds no more of them than its cap of at least one.
pub proof fn lemma_valid_meaning(index: IndexView)
    ensures
        index.valid() <==> {
            &&& forall|i: int, j: int|
                0 <= i < j < index.order.len() ==> index.order[i] != index.order[j]
            &&& forall|key: u128| #[trigger]
                index.committed.contains_key(key) <==> index.order.contains(key)
            &&& 1 <= index.entries_max
            &&& index.order.len() <= index.entries_max
        },
{
    if forall|i: int, j: int|
        0 <= i < j < index.order.len() ==> index.order[i] != index.order[j] {
        assert(index.order.no_duplicates());
    }
}

/// A new index holds nothing, counts nothing, and may hold as many keys as
/// asked, but at least one.
pub proof fn lemma_empty_meaning(entries_max: nat)
    ensures
        ({
            let index = IndexView::empty(entries_max);
            &&& forall|key: u128| !index.committed.contains_key(key)
            &&& forall|key: u128| !index.pending.contains_key(key)
            &&& index.order.len() == 0
            &&& index.newest_timestamp == 0
            &&& index.entries_max >= 1
            &&& entries_max >= 1 ==> index.entries_max == entries_max
            &&& entries_max == 0 ==> index.entries_max == 1
            &&& index.counters.dropped == 0
            &&& index.counters.deferred == 0
            &&& index.counters.evicted_live == 0
            &&& index.counters.unconfirmed_commits == 0
            &&& index.recordings == 0
        }),
{
}

/// A pending occurrence replaces the one its key had and nothing else. It is
/// numbered unless the same op had recorded the key.
pub proof fn lemma_record_pending_meaning(
    index: IndexView,
    key: u128,
    offset: u64,
    timestamp: u64,
    op: u64,
)
    ensures
        ({
            let after = index.record_pending(key, offset, timestamp, op);
            &&& after.pending.contains_key(key)
            &&& after.pending[key].offset == offset
            &&& after.pending[key].timestamp == timestamp
            &&& after.pending[key].op == op
            &&& forall|other: u128|
                other != key ==> (#[trigger] after.pending.contains_key(other)
                    <==> index.pending.contains_key(other))
            &&& forall|other: u128|
                other != key && #[trigger] after.pending.contains_key(other)
                    ==> after.pending[other] == index.pending[other]
            &&& after.committed == index.committed
            &&& after.order == index.order
            &&& after.newest_timestamp == index.newest_timestamp
            &&& after.entries_max == index.entries_max
            &&& after.counters == index.counters
            &&& index.pending.contains_key(key) && index.pending[key].op == op ==> after.recordings
                == index.recordings
            &&& !(index.pending.contains_key(key) && index.pending[key].op == op)
                ==> after.recordings == index.recordings + 1
        }),
{
}

/// A sweep through an op drops exactly the pending occurrences at or below it.
pub proof fn lemma_sweep_meaning(index: IndexView, op: u64)
    ensures
        ({
            let after = index.sweep_committed_through(op);
            &&& forall|key: u128| #[trigger]
                after.pending.contains_key(key) <==> index.pending.contains_key(key)
                    && index.pending[key].op > op
            &&& forall|key: u128| #[trigger]
                after.pending.contains_key(key) ==> after.pending[key] == index.pending[key]
            &&& after.committed == index.committed
            &&& after.order == index.order
            &&& after.newest_timestamp == index.newest_timestamp
            &&& after.entries_max == index.entries_max
            &&& after.counters == index.counters
            &&& after.recordings == index.recordings
        }),
{
}

/// A truncation from an op drops exactly the pending occurrences at or above
/// it.
pub proof fn lemma_truncate_meaning(index: IndexView, from_op: u64)
    ensures
        ({
            let after = index.truncate_from_op(from_op);
            &&& forall|key: u128| #[trigger]
                after.pending.contains_key(key) <==> index.pending.contains_key(key)
                    && index.pending[key].op < from_op
            &&& forall|key: u128| #[trigger]
                after.pending.contains_key(key) ==> after.pending[key] == index.pending[key]
            &&& after.committed == index.committed
            &&& after.order == index.order
            &&& after.newest_timestamp == index.newest_timestamp
            &&& after.entries_max == index.entries_max
            &&& after.counters == index.counters
            &&& after.recordings == index.recordings
        }),
{
}

/// Clearing forgets every key and the eviction reference, and keeps the cap,
/// the counters and the numbering.
pub proof fn lemma_clear_meaning(index: IndexView)
    ensures
        ({
            let after = index.clear();
            &&& forall|key: u128| !after.committed.contains_key(key)
            &&& forall|key: u128| !after.pending.contains_key(key)
            &&& after.order.len() == 0
            &&& after.newest_timestamp == 0
            &&& after.entries_max == index.entries_max
            &&& after.counters == index.counters
            &&& after.recordings == index.recordings
        }),
{
}

// ---------------------------------------------------------------------------
// Eviction
// ---------------------------------------------------------------------------

/// How many of the keys of `order` are live under `live`.
pub open spec fn count_live(order: Seq<u128>, live: spec_fn(u128) -> bool) -> nat {
    order.filter(live).len()
}

proof fn lemma_count_live_first(order: Seq<u128>, live: spec_fn(u128) -> bool)
    requires
        order.len() > 0,
    ensures
        count_live(order, live) == count_live(order.drop_first(), live) + if live(order[0]) {
            1nat
        } else {
            0nat
        },
{
    let head = seq![order[0]];
    assert(order =~= head + order.drop_first());
    Seq::filter_distributes_over_add(head, order.drop_first(), live);
    reveal(Seq::filter);
    assert(head.drop_last() =~= Seq::empty());
    assert(head.drop_last().filter(live) =~= Seq::empty());
    assert(head.filter(live).len() == if live(order[0]) {
        1nat
    } else {
        0nat
    });
}

/// Dropping by age drops exactly the run of expired keys at the front.
proof fn lemma_drop_expired_front(index: IndexView, cutoff: u64) -> (n: int)
    requires
        index.ordered(),
    ensures
        0 <= n <= index.order.len(),
        index.drop_expired(cutoff).order == index.order.skip(n),
        forall|i: int|
            0 <= i < n ==> index.committed[#[trigger] index.order[i]].timestamp < cutoff,
        n < index.order.len() ==> index.committed[index.order[n]].timestamp >= cutoff,
        forall|key: u128| #[trigger]
            index.drop_expired(cutoff).committed.contains_key(key) <==> index.order.skip(
                n,
            ).contains(key),
        forall|key: u128| #[trigger]
            index.drop_expired(cutoff).committed.contains_key(key) ==> index.drop_expired(
                cutoff,
            ).committed[key] == index.committed[key],
        index.drop_expired(cutoff).ordered(),
    decreases index.order.len(),
{
    if index.order.len() > 0 && index.committed[index.order[0]].timestamp < cutoff {
        let next = index.drop_oldest();
        index.lemma_drop_oldest();
        let m = lemma_drop_expired_front(next, cutoff);
        let n = m + 1;
        assert(next.order.skip(m) =~= index.order.skip(n));
        assert forall|i: int| 0 <= i < n implies index.committed[
        #[trigger] index.order[i]].timestamp < cutoff by {
            if i > 0 {
                assert(next.order[i - 1] == index.order[i]);
                assert(index.order[i] != index.order[0]);
            }
        }
        if n < index.order.len() {
            assert(next.order[m] == index.order[n]);
            assert(index.order[n] != index.order[0]);
        }
        n
    } else {
        assert(index.order.skip(0) =~= index.order);
        0
    }
}

/// Dropping to the cap drops the front down to the cap and counts the live
/// keys it drops.
proof fn lemma_drop_excess_front(index: IndexView, cutoff: u64, live: spec_fn(u128) -> bool)
    requires
        index.ordered(),
        forall|i: int|
            0 <= i < index.order.len() ==> live(#[trigger] index.order[i]) == (index.committed[
            index.order[i]].timestamp >= cutoff),
    ensures
        ({
            let left = index.drop_excess(cutoff);
            let gone = if index.order.len() > index.entries_max {
                index.order.len() - index.entries_max
            } else {
                0
            };
            let counted = index.counters.evicted_live + count_live(index.order.take(gone), live);
            &&& left.order == index.order.skip(gone)
            &&& left.counters.evicted_live == if counted > u64::MAX {
                u64::MAX as int
            } else {
                counted
            }
            &&& forall|key: u128| #[trigger]
                left.committed.contains_key(key) <==> index.order.skip(gone).contains(key)
            &&& forall|key: u128| #[trigger]
                left.committed.contains_key(key) ==> left.committed[key] == index.committed[key]
        }),
    decreases index.order.len(),
{
    if index.order.len() > 0 && index.order.len() > index.entries_max {
        let gone = index.order.len() - index.entries_max;
        let next = index.drop_one_excess(cutoff);
        index.lemma_drop_oldest();
        assert forall|i: int| 0 <= i < next.order.len() implies live(#[trigger] next.order[i]) == (
        next.committed[next.order[i]].timestamp >= cutoff) by {
            assert(next.order[i] == index.order[i + 1]);
            assert(index.order[i + 1] != index.order[0]);
        }
        lemma_drop_excess_front(next, cutoff, live);
        assert(next.order.skip(gone - 1) =~= index.order.skip(gone));
        assert(next.order.take(gone - 1) =~= index.order.take(gone).drop_first());
        lemma_count_live_first(index.order.take(gone), live);
        assert(live(index.order[0]) == (index.committed[index.order[0]].timestamp >= cutoff));
    } else {
        assert(index.order.skip(0) =~= index.order);
        assert(index.order.take(0) =~= Seq::empty());
        reveal(Seq::filter);
    }
}

/// The run of keys that eviction by age takes, with what eviction leaves.
proof fn lemma_evict_run(index: IndexView, window_micros: u64) -> (aged: int)
    requires
        index.ordered(),
    ensures
        ({
            let left = index.evict(window_micros);
            let len = index.order.len();
            let gone = len - left.order.len();
            let live = |key: u128|
                index.committed[key].timestamp + window_micros >= index.newest_timestamp;
            let counted = index.counters.evicted_live + index.order.take(gone).filter(live).len();
            &&& 0 <= aged <= len
            &&& forall|i: int|
                0 <= i < aged ==> index.committed[#[trigger] index.order[i]].timestamp
                    + window_micros < index.newest_timestamp
            &&& aged < len ==> index.committed[index.order[aged]].timestamp + window_micros
                >= index.newest_timestamp
            &&& gone == if len - aged > index.entries_max {
                len - index.entries_max
            } else {
                aged
            }
            &&& left.order == index.order.skip(gone)
            &&& forall|key: u128| #[trigger]
                left.committed.contains_key(key) <==> index.committed.contains_key(key)
                    && left.order.contains(key)
            &&& forall|key: u128| #[trigger]
                left.committed.contains_key(key) ==> left.committed[key] == index.committed[key]
            &&& counted <= u64::MAX ==> left.counters.evicted_live == counted
            &&& counted > u64::MAX ==> left.counters.evicted_live == u64::MAX
            &&& left.counters.dropped == index.counters.dropped
            &&& left.counters.deferred == index.counters.deferred
            &&& left.counters.unconfirmed_commits == index.counters.unconfirmed_commits
            &&& left.pending == index.pending
            &&& left.newest_timestamp == index.newest_timestamp
            &&& left.entries_max == index.entries_max
            &&& left.recordings == index.recordings
        }),
{
    let cutoff = index.cutoff(window_micros);
    let live = |key: u128|
        index.committed[key].timestamp + window_micros >= index.newest_timestamp;
    let len = index.order.len();
    let aged_index = index.drop_expired(cutoff);
    let left = index.evict(window_micros);
    let gone = len - left.order.len();
    let aged = lemma_drop_expired_front(index, cutoff);
    index.lemma_drop_expired_frame(cutoff);
    aged_index.lemma_drop_excess_frame(cutoff);
    assert forall|i: int| 0 <= i < aged_index.order.len() implies live(
        #[trigger] aged_index.order[i],
    ) == (aged_index.committed[aged_index.order[i]].timestamp >= cutoff) by {
        assert(aged_index.order.contains(aged_index.order[i]));
        assert(aged_index.committed.contains_key(aged_index.order[i]));
    }
    lemma_drop_excess_front(aged_index, cutoff, live);
    let more = if aged_index.order.len() > index.entries_max {
        aged_index.order.len() - index.entries_max
    } else {
        0
    };
    assert(index.order.skip(aged).skip(more) =~= index.order.skip(aged + more));
    assert(gone == aged + more);
    assert(index.order.take(gone) =~= index.order.take(aged) + index.order.skip(aged).take(more));
    Seq::filter_distributes_over_add(
        index.order.take(aged),
        index.order.skip(aged).take(more),
        live,
    );
    lemma_none_live(index.order.take(aged), live);
    assert forall|i: int| 0 <= i < aged implies index.committed[#[trigger] index.order[i]].timestamp
        + window_micros < index.newest_timestamp by {}
    if aged < len {
        assert(index.committed[index.order[aged]].timestamp + window_micros
            >= index.newest_timestamp);
    }
    assert forall|key: u128| #[trigger]
        left.committed.contains_key(key) <==> index.committed.contains_key(key)
            && left.order.contains(key) by {
        if left.order.contains(key) {
            let i = choose|i: int| 0 <= i < left.order.len() && left.order[i] == key;
            assert(index.order[gone + i] == key);
            assert(index.order.contains(key));
        }
    }
    assert forall|key: u128| #[trigger] left.committed.contains_key(key) implies left.committed[key]
        == index.committed[key] by {
        let i = choose|i: int| 0 <= i < left.order.len() && left.order[i] == key;
        assert(aged_index.order[more + i] == key);
        assert(aged_index.order.contains(key));
        assert(aged_index.committed.contains_key(key));
    }
    aged
}

/// Eviction by age and by the cap: the keys recorded longest ago go, first the
/// run of them whose window ended before the newest committed timestamp, then
/// as many more as the cap demands. What is left is as it was, and the keys
/// that went though their window had not ended are counted.
pub proof fn lemma_evict_meaning(index: IndexView, window_micros: u64)
    requires
        index.ordered(),
    ensures
        ({
            let left = index.evict(window_micros);
            let len = index.order.len();
            let gone = len - left.order.len();
            let live = |key: u128|
                index.committed[key].timestamp + window_micros >= index.newest_timestamp;
            let counted = index.counters.evicted_live + index.order.take(gone).filter(live).len();
            &&& exists|aged: int|
                #![trigger index.order.take(aged)]
                {
                    &&& 0 <= aged <= len
                    &&& forall|i: int|
                        0 <= i < aged ==> index.committed[#[trigger] index.order[i]].timestamp
                            + window_micros < index.newest_timestamp
                    &&& aged < len ==> index.committed[index.order[aged]].timestamp + window_micros
                        >= index.newest_timestamp
                    &&& gone == if len - aged > index.entries_max {
                        len - index.entries_max
                    } else {
                        aged
                    }
                }
            &&& left.order == index.order.skip(gone)
            &&& forall|key: u128| #[trigger]
                left.committed.contains_key(key) <==> index.committed.contains_key(key)
                    && left.order.contains(key)
            &&& forall|key: u128| #[trigger]
                left.committed.contains_key(key) ==> left.committed[key] == index.committed[key]
            &&& counted <= u64::MAX ==> left.counters.evicted_live == counted
            &&& counted > u64::MAX ==> left.counters.evicted_live == u64::MAX
            &&& left.counters.dropped == index.counters.dropped
            &&& left.counters.deferred == index.counters.deferred
            &&& left.counters.unconfirmed_commits == index.counters.unconfirmed_commits
            &&& left.pending == index.pending
            &&& left.newest_timestamp == index.newest_timestamp
            &&& left.entries_max == index.entries_max
            &&& left.recordings == index.recordings
        }),
{
    let aged = lemma_evict_run(index, window_micros);
    assert(index.order.take(aged).len() == aged);
}

proof fn lemma_none_live(order: Seq<u128>, live: spec_fn(u128) -> bool)
    requires
        forall|i: int| 0 <= i < order.len() ==> !live(#[trigger] order[i]),
    ensures
        order.filter(live).len() == 0,
    decreases order.len(),
{
    reveal(Seq::filter);
    if order.len() > 0 {
        let front = order.drop_last();
        assert forall|i: int| 0 <= i < front.len() implies !live(#[trigger] front[i]) by {
            assert(front[i] == order[i]);
        }
        lemma_none_live(front, live);
        assert(!live(order[order.len() - 1]));
    }
}

/// A new cap, of at least one key, takes effect at once: the keys recorded
/// longest ago go, first the run of those that have left the window, then as
/// many more as the cap demands; those that went inside the window are counted.
#[verifier::rlimit(40)]
pub proof fn lemma_set_entries_max_meaning(
    index: IndexView,
    entries_max: nat,
    window_micros: u64,
)
    requires
        index.ordered(),
    ensures
        ({
            let after = index.set_entries_max(entries_max, window_micros);
            let gone = index.order.len() - after.order.len();
            let live = |key: u128|
                index.committed[key].timestamp + window_micros >= index.newest_timestamp;
            let counted = index.counters.evicted_live + index.order.take(gone).filter(live).len();
            &&& entries_max >= 1 ==> after.entries_max == entries_max
            &&& entries_max == 0 ==> after.entries_max == 1
            &&& after.order.len() <= after.entries_max
            &&& gone >= 0
            &&& after.order == index.order.skip(gone)
            &&& after.order.len() < after.entries_max ==> forall|i: int|
                0 <= i < gone ==> index.committed[#[trigger] index.order[i]].timestamp
                    + window_micros < index.newest_timestamp
            &&& exists|aged: int|
                #![trigger index.order.take(aged)]
                {
                    &&& 0 <= aged <= index.order.len()
                    &&& forall|i: int|
                        0 <= i < aged ==> index.committed[#[trigger] index.order[i]].timestamp
                            + window_micros < index.newest_timestamp
                    &&& aged < index.order.len() ==> index.committed[index.order[aged]].timestamp
                        + window_micros >= index.newest_timestamp
                    &&& gone == if index.order.len() - aged > after.entries_max {
                        index.order.len() - after.entries_max
                    } else {
                        aged
                    }
                }
            &&& counted <= u64::MAX ==> after.counters.evicted_live == counted
            &&& counted > u64::MAX ==> after.counters.evicted_live == u64::MAX
            &&& after.counters.dropped == index.counters.dropped
            &&& after.counters.deferred == index.counters.deferred
            &&& after.counters.unconfirmed_commits == index.counters.unconfirmed_commits
            &&& forall|key: u128| #[trigger]
                after.committed.contains_key(key) <==> index.committed.contains_key(key)
                    && after.order.contains(key)
            &&& forall|key: u128| #[trigger]
                after.committed.contains_key(key) ==> after.committed[key] == index.committed[key]
            &&& after.pending == index.pending
            &&& after.newest_timestamp == index.newest_timestamp
            &&& after.recordings == index.recordings
        }),
{
    let capped = IndexView {
        entries_max: if entries_max == 0 {
            1
        } else {
            entries_max
        },
        ..index
    };
    let aged = lemma_evict_run(capped, window_micros);
    assert(capped.order == index.order && capped.committed == index.committed);
    let after = capped.evict(window_micros);
    assert(after == index.set_entries_max(entries_max, window_micros));
    let live = |key: u128|
        index.committed[key].timestamp + window_micros >= index.newest_timestamp;
    let capped_live = |key: u128|
        capped.committed[key].timestamp + window_micros >= capped.newest_timestamp;
    assert(live =~= capped_live);
    assert(index.order.take(aged).len() == aged);
}

// ---------------------------------------------------------------------------
// Indexing
// ---------------------------------------------------------------------------

/// Taking a key out leaves the others in their order.
proof fn lemma_without_keeps_order(keys: Seq<u128>, key: u128, p: int, q: int) -> (places: (
    int,
    int,
))
    requires
        0 <= p < q < index_model::without(keys, key).len(),
    ensures
        0 <= places.0 < places.1 < keys.len(),
        keys[places.0] == index_model::without(keys, key)[p],
        keys[places.1] == index_model::without(keys, key)[q],
    decreases keys.len(),
{
    reveal(Seq::filter);
    let front = keys.drop_last();
    let kept = index_model::without(front, key);
    if keys.last() != key && q == kept.len() {
        assert(index_model::without(keys, key) == kept.push(keys.last()));
        assert(kept.contains(kept[p]));
        index_model::lemma_without_contains(front, key, kept[p]);
        let i = choose|i: int| 0 <= i < front.len() && front[i] == kept[p];
        assert(keys[i] == kept[p]);
        (i, keys.len() - 1)
    } else {
        lemma_without_keeps_order(front, key, p, q)
    }
}

/// An occurrence that is indexed already keeps its place and timestamp, and
/// learns its op where it had none.
pub proof fn lemma_known_occurrence_meaning(
    index: IndexView,
    key: u128,
    offset: u64,
    timestamp: u64,
    op: u64,
    window_micros: u64,
)
    requires
        index.committed.contains_key(key),
        index.committed[key].offset == offset,
    ensures
        ({
            let after = index.record_committed(key, offset, timestamp, op, window_micros);
            &&& after.newest_timestamp >= index.newest_timestamp
            &&& after.newest_timestamp >= timestamp
            &&& after.newest_timestamp == index.newest_timestamp || after.newest_timestamp
                == timestamp
            &&& forall|other: u128| #[trigger]
                after.committed.contains_key(other) <==> index.committed.contains_key(other)
            &&& forall|other: u128|
                other != key && #[trigger] index.committed.contains_key(other)
                    ==> after.committed[other] == index.committed[other]
            &&& after.committed[key].offset == offset
            &&& after.committed[key].timestamp == index.committed[key].timestamp
            &&& index.committed[key].op == 0 ==> after.committed[key].op == op
            &&& index.committed[key].op != 0 ==> after.committed[key].op == index.committed[key].op
            &&& after.order == index.order
            &&& after.pending == index.pending
            &&& after.counters == index.counters
            &&& after.entries_max == index.entries_max
            &&& after.recordings == index.recordings
        }),
{
}

/// A new occurrence is indexed as it is and takes the newest place, unless its
/// window ended before the newest committed timestamp. Other keys only ever
/// leave: those recorded longest ago first, and, while no live key is counted
/// as evicted, none whose window has not ended. The cap is kept.
pub proof fn lemma_new_occurrence_meaning(
    index: IndexView,
    key: u128,
    offset: u64,
    timestamp: u64,
    op: u64,
    window_micros: u64,
)
    requires
        index.valid(),
        !(index.committed.contains_key(key) && index.committed[key].offset == offset),
    ensures
        ({
            let after = index.record_committed(key, offset, timestamp, op, window_micros);
            let newest = after.newest_timestamp;
            &&& newest >= index.newest_timestamp
            &&& newest >= timestamp
            &&& newest == index.newest_timestamp || newest == timestamp
            &&& timestamp + window_micros >= newest ==> {
                &&& after.committed.contains_key(key)
                &&& after.order.len() > 0
                &&& after.order[after.order.len() - 1] == key
            }
            &&& after.committed.contains_key(key) ==> {
                &&& after.committed[key].offset == offset
                &&& after.committed[key].timestamp == timestamp
                &&& after.committed[key].op == op
            }
            &&& forall|other: u128|
                other != key && #[trigger] after.committed.contains_key(other)
                    ==> index.committed.contains_key(other) && after.committed[other]
                    == index.committed[other]
            &&& forall|p: int, q: int|
                0 <= p < q < after.order.len() && (#[trigger] after.order[q]) != key ==> exists|
                    i: int,
                    j: int,
                |
                    0 <= i < j < index.order.len() && #[trigger] index.order[i] == (
                    #[trigger] after.order[p]) && #[trigger] index.order[j] == after.order[q]
            &&& after.order.len() <= index.entries_max
            &&& after.counters.evicted_live >= index.counters.evicted_live
            &&& after.counters.evicted_live == index.counters.evicted_live
                && index.counters.evicted_live < u64::MAX ==> forall|other: u128|
                other != key && #[trigger] index.committed.contains_key(other)
                    && index.committed[other].timestamp + window_micros >= newest
                    ==> after.committed.contains_key(other)
            &&& index.order.len() < index.entries_max ==> after.counters.evicted_live
                == index.counters.evicted_live
            &&& index.order.len() < index.entries_max && after.order.len() > 0
                ==> after.committed[after.order[0]].timestamp + window_micros >= newest
            &&& after.pending == index.pending
            &&& after.counters.dropped == index.counters.dropped
            &&& after.counters.deferred == index.counters.deferred
            &&& after.counters.unconfirmed_commits == index.counters.unconfirmed_commits
            &&& after.entries_max == index.entries_max
            &&& after.recordings == index.recordings + 1
        }),
{
    let occurrence = Occurrence { offset, timestamp, op };
    let added = index.with_newest(key, occurrence);
    let after = index.record_committed(key, offset, timestamp, op, window_micros);
    let kept = index_model::without(index.order, key);
    index.lemma_with_newest(key, occurrence);
    lemma_evict_meaning(added, window_micros);
    let gone = added.order.len() - after.order.len();
    if timestamp + window_micros >= after.newest_timestamp {
        laws::lemma_newest_survives(added, window_micros);
        assert(after.order.contains(key));
        assert(after.order.last() == added.order.last());
    }
    assert forall|p: int, q: int|
        0 <= p < q < after.order.len() && (#[trigger] after.order[q]) != key implies exists|
        i: int,
        j: int,
    |
        0 <= i < j < index.order.len() && #[trigger] index.order[i] == (#[trigger] after.order[p])
            && #[trigger] index.order[j] == after.order[q] by {
        assert(after.order[p] == added.order[gone + p]);
        assert(after.order[q] == added.order[gone + q]);
        assert(gone + q < kept.len());
        let (i, j) = lemma_without_keeps_order(index.order, key, gone + p, gone + q);
        assert(index.order[i] == after.order[p] && index.order[j] == after.order[q]);
    }
    if after.counters.evicted_live == index.counters.evicted_live && index.counters.evicted_live
        < u64::MAX {
        laws::lemma_unsaturated_eviction_spares_the_live(added, window_micros);
        assert forall|other: u128|
            other != key && #[trigger] index.committed.contains_key(other)
                && index.committed[other].timestamp + window_micros
                >= after.newest_timestamp implies after.committed.contains_key(other) by {
            assert(added.committed.contains_key(other));
        }
    }
    if index.order.len() < index.entries_max {
        lemma_without_is_no_longer(index.order, key);
        lemma_gone_below_the_cap(added, window_micros);
        let live = |k: u128|
            added.committed[k].timestamp + window_micros >= added.newest_timestamp;
        lemma_none_live(added.order.take(gone), live);
        if after.order.len() > 0 {
            assert(after.order[0] == added.order[gone]);
            assert(after.order.contains(after.order[0]));
            assert(added.order.contains(after.order[0]));
            assert(after.committed.contains_key(after.order[0]));
        }
    }
}

proof fn lemma_without_is_no_longer(keys: Seq<u128>, key: u128)
    ensures
        index_model::without(keys, key).len() <= keys.len(),
    decreases keys.len(),
{
    reveal(Seq::filter);
    if keys.len() > 0 {
        lemma_without_is_no_longer(keys.drop_last(), key);
    }
}

/// While the cap does not bind, what goes is expired and what is oldest is
/// live.
proof fn lemma_gone_below_the_cap(index: IndexView, window_micros: u64)
    requires
        index.ordered(),
        index.order.len() <= index.entries_max,
    ensures
        ({
            let left = index.evict(window_micros);
            let gone = index.order.len() - left.order.len();
            &&& 0 <= gone
            &&& forall|i: int|
                0 <= i < gone ==> index.committed[#[trigger] index.order[i]].timestamp
                    + window_micros < index.newest_timestamp
            &&& gone < index.order.len() ==> index.committed[index.order[gone]].timestamp
                + window_micros >= index.newest_timestamp
        }),
{
    lemma_evict_meaning(index, window_micros);
}

/// Exactly what a new occurrence evicts: with its key moved to the newest place,
/// the run of keys recorded longest ago whose window ended before the newest
/// committed timestamp, then as many more as the cap demands. Those that went
/// inside the window are counted.
pub proof fn lemma_new_occurrence_evicts_exactly(
    index: IndexView,
    key: u128,
    offset: u64,
    timestamp: u64,
    op: u64,
    window_micros: u64,
)
    requires
        index.valid(),
        !(index.committed.contains_key(key) && index.committed[key].offset == offset),
    ensures
        ({
            let after = index.record_committed(key, offset, timestamp, op, window_micros);
            let newest = after.newest_timestamp;
            let order = index.order.filter(|other: u128| other != key).push(key);
            let stamp = |other: u128|
                if other == key {
                    timestamp as int
                } else {
                    index.committed[other].timestamp as int
                };
            let live = |other: u128| stamp(other) + window_micros >= newest;
            let gone = order.len() - after.order.len();
            let counted = index.counters.evicted_live + order.take(gone).filter(live).len();
            &&& exists|aged: int|
                #![trigger order.take(aged)]
                {
                    &&& 0 <= aged <= order.len()
                    &&& forall|i: int|
                        0 <= i < aged ==> stamp(#[trigger] order[i]) + window_micros < newest
                    &&& aged < order.len() ==> stamp(order[aged]) + window_micros >= newest
                    &&& gone == if order.len() - aged > index.entries_max {
                        order.len() - index.entries_max
                    } else {
                        aged
                    }
                }
            &&& after.order == order.skip(gone)
            &&& forall|other: u128| #[trigger]
                after.committed.contains_key(other) <==> after.order.contains(other)
            &&& counted <= u64::MAX ==> after.counters.evicted_live == counted
            &&& counted > u64::MAX ==> after.counters.evicted_live == u64::MAX
        }),
{
    let occurrence = Occurrence { offset, timestamp, op };
    let added = index.with_newest(key, occurrence);
    index.lemma_with_newest(key, occurrence);
    let aged = lemma_evict_run(added, window_micros);
    let after = added.evict(window_micros);
    assert(after == index.record_committed(key, offset, timestamp, op, window_micros));
    let newest = after.newest_timestamp;
    assert((|other: u128| other != key) =~= index_model::other_than(key));
    let order = index.order.filter(|other: u128| other != key).push(key);
    assert(order == added.order);
    let stamp = |other: u128|
        if other == key {
            timestamp as int
        } else {
            index.committed[other].timestamp as int
        };
    let live = |other: u128| stamp(other) + window_micros >= newest;
    let added_live = |other: u128|
        added.committed[other].timestamp + window_micros >= added.newest_timestamp;
    assert forall|other: u128| #[trigger] stamp(other) == added.committed[other].timestamp by {}
    assert(live =~= added_live);
    let gone = order.len() - after.order.len();
    assert forall|i: int| 0 <= i < aged implies stamp(#[trigger] order[i]) + window_micros
        < newest by {
        assert(added.committed[added.order[i]].timestamp + window_micros < added.newest_timestamp);
    }
    assert(aged < order.len() ==> stamp(order[aged]) + window_micros >= newest);
    assert(order.take(aged).len() == aged);
    assert forall|other: u128| #[trigger]
        after.committed.contains_key(other) <==> after.order.contains(other) by {
        if after.order.contains(other) {
            let i = choose|i: int| 0 <= i < after.order.len() && after.order[i] == other;
            assert(added.order[gone + i] == other);
            assert(added.order.contains(other));
            assert(added.committed.contains_key(other));
        }
    }
}

// ---------------------------------------------------------------------------
// Whole logs
// ---------------------------------------------------------------------------

/// An index that has indexed a log, and whose cap never evicted a live key,
/// holds a key if and only if a message with it is no older than the window
/// behind the last message, and holds the last such message.
pub proof fn lemma_indexed_log_meaning(
    index: IndexView,
    log: Seq<LogRecord>,
    window_micros: u64,
    key: u128,
)
    requires
        laws::nothing_committed(index),
        forall|i: int, j: int|
            0 <= i < j < log.len() ==> (#[trigger] log[i]).offset < (#[trigger] log[j]).offset
                && log[i].timestamp <= log[j].timestamp,
        laws::replay(index, log, window_micros).counters.evicted_live
            == index.counters.evicted_live,
    ensures
        ({
            let held = laws::replay(index, log, window_micros);
            &&& held.committed.contains_key(key) <==> exists|i: int|
                0 <= i < log.len() && (#[trigger] log[i]).key == key && log[i].timestamp
                    + window_micros >= log[log.len() - 1].timestamp
            &&& held.committed.contains_key(key) ==> exists|i: int|
                {
                    &&& 0 <= i < log.len()
                    &&& (#[trigger] log[i]).key == key
                    &&& forall|j: int| i < j < log.len() ==> (#[trigger] log[j]).key != key
                    &&& held.committed[key].offset == log[i].offset
                    &&& held.committed[key].timestamp == log[i].timestamp
                    &&& held.committed[key].op == log[i].op
                }
        }),
{
    let held = laws::replay(index, log, window_micros);
    laws::lemma_index_holds_the_window(index, log, window_micros);
    laws::lemma_latest(log, key);
    if let Some(record) = laws::latest(log, key) {
        let m = choose|m: int| 0 <= m < log.len() && log[m] == record;
        assert forall|j: int| m < j < log.len() implies (#[trigger] log[j]).key != key by {
            if log[j].key == key {
                assert(log[m].offset < log[j].offset);
                assert(log[j].offset <= record.offset);
            }
        }
        assert(log[m].key == key);
        if held.committed.contains_key(key) {
            assert(log[m].timestamp + window_micros >= log[log.len() - 1].timestamp);
        } else {
            assert forall|i: int| 0 <= i < log.len() && (#[trigger] log[i]).key == key implies
                log[i].timestamp + window_micros < log[log.len() - 1].timestamp by {
                assert(log[i].timestamp <= record.timestamp);
            }
        }
    }
}

// ---------------------------------------------------------------------------
// Fingerprints
// ---------------------------------------------------------------------------

/// The bytes a fingerprint is taken over: 32 for each occurrence, in the order
/// of the listing. They are the sixteen bytes of the key, then the eight of
/// the offset, then the eight of the timestamp, each least significant first.
pub proof fn lemma_fingerprint_layout(
    listing: Seq<(u128, u64, u64, u64)>,
    i: int,
    b: int,
)
    requires
        0 <= i < listing.len(),
    ensures
        ({
            let bytes = index_model::fingerprint_material(listing);
            &&& bytes.len() == 32 * listing.len()
            &&& 0 <= b < 16 ==> bytes[32 * i + b] as int == (listing[i].0 as int
                / vstd::arithmetic::power::pow(256, b as nat)) % 256
            &&& 16 <= b < 24 ==> bytes[32 * i + b] as int == (listing[i].1 as int
                / vstd::arithmetic::power::pow(256, (b - 16) as nat)) % 256
            &&& 24 <= b < 32 ==> bytes[32 * i + b] as int == (listing[i].2 as int
                / vstd::arithmetic::power::pow(256, (b - 24) as nat)) % 256
        }),
    decreases listing.len(),
{
    let front = listing.drop_last();
    let (key, offset, timestamp, op) = listing.last();
    let bytes = index_model::fingerprint_material(listing);
    let before = index_model::fingerprint_material(front);
    wire::lemma_le_bytes_meaning(key as nat, 16);
    wire::lemma_le_bytes_meaning(offset as nat, 8);
    wire::lemma_le_bytes_meaning(timestamp as nat, 8);
    lemma_fingerprint_length(front);
    if i < front.len() {
        lemma_fingerprint_layout(front, i, b);
        if 0 <= b < 32 {
            assert(bytes[32 * i + b] == before[32 * i + b]);
        }
    } else {
        if 0 <= b < 16 {
            assert(bytes[32 * i + b] == wire::le_bytes(key as nat, 16)[b]);
        } else if 16 <= b < 24 {
            assert(bytes[32 * i + b] == wire::le_bytes(offset as nat, 8)[b - 16]);
        } else if 24 <= b < 32 {
            assert(bytes[32 * i + b] == wire::le_bytes(timestamp as nat, 8)[b - 24]);
        }
    }
}

/// A fingerprint is taken over 32 bytes for each occurrence.
pub proof fn lemma_fingerprint_length(listing: Seq<(u128, u64, u64, u64)>)
    ensures
        index_model::fingerprint_material(listing).len() == 32 * listing.len(),
    decreases listing.len(),
{
    if listing.len() > 0 {
        let (key, offset, timestamp, op) = listing.last();
        lemma_fingerprint_length(listing.drop_last());
        wire::lemma_le_bytes_meaning(key as nat, 16);
        wire::lemma_le_bytes_meaning(offset as nat, 8);
        wire::lemma_le_bytes_meaning(timestamp as nat, 8);
    }
}

} // verus!
