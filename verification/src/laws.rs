//! What holds of the index over a whole log, and of the primary's decisions.

use vstd::prelude::*;

use crate::batch;
use crate::batch::{Screening, StampedKey};
use crate::index_model;
use crate::index_model::{DedupMatch, IndexView, Occurrence, REBUILT_OP};
use crate::key;
use crate::user_headers;
use crate::user_headers::{Field, HeaderEntry};

verus! {

/// A keyed message of a log.
pub struct LogRecord {
    pub key: u128,
    pub offset: u64,
    pub timestamp: u64,
    pub op: u64,
}

impl LogRecord {
    /// Where and when the message was appended.
    pub open spec fn occurrence(self) -> Occurrence {
        Occurrence { offset: self.offset, timestamp: self.timestamp, op: self.op }
    }
}

/// The committed messages of `log` indexed in order.
pub open spec fn replay(index: IndexView, log: Seq<LogRecord>, window_micros: u64) -> IndexView
    decreases log.len(),
{
    if log.len() == 0 {
        index
    } else {
        let last = log.last();
        replay(index, log.drop_last(), window_micros).record_committed(
            last.key,
            last.offset,
            last.timestamp,
            last.op,
            window_micros,
        )
    }
}

/// The half of an index that is written from committed content only.
#[verifier::ext_equal]
pub struct CommittedHalf {
    pub committed: Map<u128, Occurrence>,
    pub order: Seq<u128>,
    pub newest_timestamp: u64,
    pub entries_max: nat,
}

/// The committed half of `index`.
pub open spec fn committed_half(index: IndexView) -> CommittedHalf {
    CommittedHalf {
        committed: index.committed,
        order: index.order,
        newest_timestamp: index.newest_timestamp,
        entries_max: index.entries_max,
    }
}

// ---------------------------------------------------------------------------
// The two halves
// ---------------------------------------------------------------------------

/// Pending bookkeeping never touches the committed half.
pub proof fn lemma_pending_leaves_the_committed_half(
    index: IndexView,
    key: u128,
    offset: u64,
    timestamp: u64,
    op: u64,
)
    ensures
        committed_half(index.record_pending(key, offset, timestamp, op)) == committed_half(index),
        committed_half(index.sweep_committed_through(op)) == committed_half(index),
        committed_half(index.truncate_from_op(op)) == committed_half(index),
{
}

/// Committed bookkeeping never touches the pending half.
pub proof fn lemma_committed_leaves_the_pending_half(
    index: IndexView,
    key: u128,
    offset: u64,
    timestamp: u64,
    op: u64,
    window_micros: u64,
)
    ensures
        index.record_committed(key, offset, timestamp, op, window_micros).pending == index.pending,
{
    index.with_newest(key, Occurrence { offset, timestamp, op }).lemma_evict_frame(window_micros);
}

proof fn lemma_drop_expired_agrees(left: IndexView, right: IndexView, cutoff: u64)
    requires
        committed_half(left) == committed_half(right),
    ensures
        committed_half(left.drop_expired(cutoff)) == committed_half(right.drop_expired(cutoff)),
    decreases left.order.len(),
{
    if left.order.len() > 0 && left.committed[left.order[0]].timestamp < cutoff {
        lemma_drop_expired_agrees(left.drop_oldest(), right.drop_oldest(), cutoff);
    }
}

proof fn lemma_drop_excess_agrees(left: IndexView, right: IndexView, cutoff: u64)
    requires
        committed_half(left) == committed_half(right),
    ensures
        committed_half(left.drop_excess(cutoff)) == committed_half(right.drop_excess(cutoff)),
    decreases left.order.len(),
{
    if left.order.len() > 0 && left.order.len() > left.entries_max {
        lemma_drop_excess_agrees(
            left.drop_one_excess(cutoff),
            right.drop_one_excess(cutoff),
            cutoff,
        );
    }
}

proof fn lemma_evict_agrees(left: IndexView, right: IndexView, window_micros: u64)
    requires
        committed_half(left) == committed_half(right),
    ensures
        committed_half(left.evict(window_micros)) == committed_half(right.evict(window_micros)),
{
    let cutoff = left.cutoff(window_micros);
    lemma_drop_expired_agrees(left, right, cutoff);
    lemma_drop_excess_agrees(left.drop_expired(cutoff), right.drop_expired(cutoff), cutoff);
}

proof fn lemma_record_committed_agrees(
    left: IndexView,
    right: IndexView,
    record: LogRecord,
    window_micros: u64,
)
    requires
        committed_half(left) == committed_half(right),
    ensures
        committed_half(
            left.record_committed(
                record.key,
                record.offset,
                record.timestamp,
                record.op,
                window_micros,
            ),
        ) == committed_half(
            right.record_committed(
                record.key,
                record.offset,
                record.timestamp,
                record.op,
                window_micros,
            ),
        ),
{
    lemma_evict_agrees(
        left.with_newest(record.key, record.occurrence()),
        right.with_newest(record.key, record.occurrence()),
        window_micros,
    );
}

/// Replicas at the same commit hold the same committed keys: what an index
/// holds as committed depends on the committed log alone, whatever is pending
/// and whatever has been counted.
pub proof fn lemma_same_log_same_committed_half(
    left: IndexView,
    right: IndexView,
    log: Seq<LogRecord>,
    window_micros: u64,
)
    requires
        committed_half(left) == committed_half(right),
    ensures
        committed_half(replay(left, log, window_micros)) == committed_half(
            replay(right, log, window_micros),
        ),
    decreases log.len(),
{
    if log.len() > 0 {
        lemma_same_log_same_committed_half(left, right, log.drop_last(), window_micros);
        lemma_record_committed_agrees(
            replay(left, log.drop_last(), window_micros),
            replay(right, log.drop_last(), window_micros),
            log.last(),
            window_micros,
        );
    }
}

/// The fingerprint depends on committed content only.
pub proof fn lemma_same_committed_half_same_fingerprint(left: IndexView, right: IndexView)
    requires
        committed_half(left) == committed_half(right),
    ensures
        index_model::fingerprint_material(index_model::sorted_entries(left.committed))
            == index_model::fingerprint_material(index_model::sorted_entries(right.committed)),
{
}

// ---------------------------------------------------------------------------
// Ops
// ---------------------------------------------------------------------------

/// `occurrence` with its op left out.
pub open spec fn without_op(occurrence: Occurrence) -> Occurrence {
    Occurrence { op: REBUILT_OP, ..occurrence }
}

/// `committed` with every op left out.
pub open spec fn without_ops(committed: Map<u128, Occurrence>) -> Map<u128, Occurrence> {
    committed.map_values(|occurrence: Occurrence| without_op(occurrence))
}

/// `index` with every committed op left out.
pub open spec fn forget_ops(index: IndexView) -> IndexView {
    IndexView { committed: without_ops(index.committed), ..index }
}

/// `log` as it is read back from storage, which does not store ops.
pub open spec fn as_stored(log: Seq<LogRecord>) -> Seq<LogRecord> {
    log.map_values(|record: LogRecord| LogRecord { op: REBUILT_OP, ..record })
}

proof fn lemma_drop_expired_forgets_ops(index: IndexView, cutoff: u64)
    requires
        index.ordered(),
    ensures
        forget_ops(index.drop_expired(cutoff)) == forget_ops(index).drop_expired(cutoff),
    decreases index.order.len(),
{
    if index.order.len() > 0 {
        assert(index.order.contains(index.order[0]));
        assert(index.committed.contains_key(index.order[0]));
        if index.committed[index.order[0]].timestamp < cutoff {
            index.lemma_drop_oldest();
            lemma_drop_expired_forgets_ops(index.drop_oldest(), cutoff);
            assert(forget_ops(index.drop_oldest()) =~= forget_ops(index).drop_oldest());
        }
    }
}

proof fn lemma_drop_excess_forgets_ops(index: IndexView, cutoff: u64)
    requires
        index.ordered(),
    ensures
        forget_ops(index.drop_excess(cutoff)) == forget_ops(index).drop_excess(cutoff),
    decreases index.order.len(),
{
    if index.order.len() > 0 && index.order.len() > index.entries_max {
        assert(index.order.contains(index.order[0]));
        assert(index.committed.contains_key(index.order[0]));
        index.lemma_drop_oldest();
        lemma_drop_excess_forgets_ops(index.drop_one_excess(cutoff), cutoff);
        assert(forget_ops(index.drop_one_excess(cutoff)) =~= forget_ops(index).drop_one_excess(
            cutoff,
        ));
    }
}

/// Eviction does not look at ops.
pub proof fn lemma_evict_forgets_ops(index: IndexView, window_micros: u64)
    requires
        index.ordered(),
    ensures
        forget_ops(index.evict(window_micros)) == forget_ops(index).evict(window_micros),
{
    let cutoff = index.cutoff(window_micros);
    lemma_drop_expired_forgets_ops(index, cutoff);
    index.lemma_drop_expired(cutoff);
    lemma_drop_excess_forgets_ops(index.drop_expired(cutoff), cutoff);
}

proof fn lemma_record_committed_forgets_ops(
    index: IndexView,
    record: LogRecord,
    window_micros: u64,
)
    requires
        index.valid(),
    ensures
        forget_ops(
            index.record_committed(
                record.key,
                record.offset,
                record.timestamp,
                record.op,
                window_micros,
            ),
        ) == forget_ops(index).record_committed(
            record.key,
            record.offset,
            record.timestamp,
            REBUILT_OP,
            window_micros,
        ),
{
    let stored = forget_ops(index);
    if index.committed_at(record.key, record.offset) {
        assert(forget_ops(
            index.record_committed(
                record.key,
                record.offset,
                record.timestamp,
                record.op,
                window_micros,
            ),
        ) =~= stored.record_committed(
            record.key,
            record.offset,
            record.timestamp,
            REBUILT_OP,
            window_micros,
        ));
    } else {
        let added = index.with_newest(record.key, record.occurrence());
        index.lemma_with_newest(record.key, record.occurrence());
        lemma_evict_forgets_ops(added, window_micros);
        assert(forget_ops(added) =~= stored.with_newest(
            record.key,
            without_op(record.occurrence()),
        ));
    }
}

/// A rebuild from committed storage and a commit walk over the same log hold
/// the same keys, offsets and timestamps in the same order, though storage
/// does not store ops.
pub proof fn lemma_rebuild_matches_the_commit_walk(
    index: IndexView,
    log: Seq<LogRecord>,
    window_micros: u64,
)
    requires
        index.valid(),
    ensures
        replay(index, log, window_micros).valid(),
        forget_ops(replay(index, log, window_micros)) == replay(
            forget_ops(index),
            as_stored(log),
            window_micros,
        ),
    decreases log.len(),
{
    if log.len() > 0 {
        let last = log.last();
        lemma_rebuild_matches_the_commit_walk(index, log.drop_last(), window_micros);
        let before = replay(index, log.drop_last(), window_micros);
        before.lemma_record_committed_valid(
            last.key,
            last.offset,
            last.timestamp,
            last.op,
            window_micros,
        );
        lemma_record_committed_forgets_ops(before, last, window_micros);
        assert(as_stored(log).drop_last() =~= as_stored(log.drop_last()));
    }
}

/// The listing of `committed` with every op left out.
proof fn lemma_listing_without_ops(
    committed: Map<u128, Occurrence>,
    listing: Seq<(u128, u64, u64, u64)>,
)
    requires
        index_model::lists(committed, listing),
    ensures
        index_model::lists(
            without_ops(committed),
            listing.map_values(|item: (u128, u64, u64, u64)| (item.0, item.1, item.2, REBUILT_OP)),
        ),
{
    let bare = listing.map_values(
        |item: (u128, u64, u64, u64)| (item.0, item.1, item.2, REBUILT_OP),
    );
    assert forall|key: u128| #[trigger] without_ops(committed).contains_key(key) implies exists|
        i: int,
    |
        0 <= i < bare.len() && (#[trigger] bare[i]).0 == key by {
        assert(committed.contains_key(key));
        let i = choose|i: int| 0 <= i < listing.len() && (#[trigger] listing[i]).0 == key;
        assert(bare[i].0 == key);
    }
}

proof fn lemma_material_ignores_ops(listing: Seq<(u128, u64, u64, u64)>)
    ensures
        index_model::fingerprint_material(listing) == index_model::fingerprint_material(
            listing.map_values(|item: (u128, u64, u64, u64)| (item.0, item.1, item.2, REBUILT_OP)),
        ),
    decreases listing.len(),
{
    let bare = listing.map_values(
        |item: (u128, u64, u64, u64)| (item.0, item.1, item.2, REBUILT_OP),
    );
    if listing.len() > 0 {
        lemma_material_ignores_ops(listing.drop_last());
        assert(bare.drop_last() =~= listing.drop_last().map_values(
            |item: (u128, u64, u64, u64)| (item.0, item.1, item.2, REBUILT_OP),
        ));
    }
}

/// The fingerprint does not depend on ops: an index and the same index rebuilt
/// from storage have one fingerprint. `listing` is any listing of the entries,
/// such as the one an index returns.
pub proof fn lemma_fingerprint_ignores_ops(
    committed: Map<u128, Occurrence>,
    listing: Seq<(u128, u64, u64, u64)>,
)
    requires
        index_model::lists(committed, listing),
    ensures
        index_model::fingerprint_material(index_model::sorted_entries(committed))
            == index_model::fingerprint_material(
            index_model::sorted_entries(without_ops(committed)),
        ),
{
    let bare = listing.map_values(
        |item: (u128, u64, u64, u64)| (item.0, item.1, item.2, REBUILT_OP),
    );
    lemma_listing_without_ops(committed, listing);
    lemma_material_ignores_ops(listing);
    index_model::lemma_listing_is_unique(
        committed,
        listing,
        index_model::sorted_entries(committed),
    );
    index_model::lemma_listing_is_unique(
        without_ops(committed),
        bare,
        index_model::sorted_entries(without_ops(committed)),
    );
}

/// `index` with the op of a committed key set.
spec fn with_op(index: IndexView, key: u128, op: u64) -> IndexView {
    if index.committed.contains_key(key) {
        IndexView {
            committed: index.committed.insert(key, Occurrence { op, ..index.committed[key] }),
            ..index
        }
    } else {
        index
    }
}

proof fn lemma_drop_expired_with_op(index: IndexView, key: u128, op: u64, cutoff: u64)
    requires
        index.ordered(),
    ensures
        with_op(index, key, op).drop_expired(cutoff) == with_op(
            index.drop_expired(cutoff),
            key,
            op,
        ),
    decreases index.order.len(),
{
    if index.order.len() > 0 {
        assert(index.order.contains(index.order[0]));
        assert(index.committed.contains_key(index.order[0]));
        if index.committed[index.order[0]].timestamp < cutoff {
            index.lemma_drop_oldest();
            lemma_drop_expired_with_op(index.drop_oldest(), key, op, cutoff);
            assert(with_op(index, key, op).drop_oldest() =~= with_op(
                index.drop_oldest(),
                key,
                op,
            ));
        }
    }
}

proof fn lemma_drop_excess_with_op(index: IndexView, key: u128, op: u64, cutoff: u64)
    requires
        index.ordered(),
    ensures
        with_op(index, key, op).drop_excess(cutoff) == with_op(
            index.drop_excess(cutoff),
            key,
            op,
        ),
    decreases index.order.len(),
{
    if index.order.len() > 0 && index.order.len() > index.entries_max {
        assert(index.order.contains(index.order[0]));
        assert(index.committed.contains_key(index.order[0]));
        index.lemma_drop_oldest();
        lemma_drop_excess_with_op(index.drop_one_excess(cutoff), key, op, cutoff);
        assert(with_op(index, key, op).drop_one_excess(cutoff) =~= with_op(
            index.drop_one_excess(cutoff),
            key,
            op,
        ));
    }
}

/// A rebuild that overlaps the commit walk keeps one entry with the real op:
/// an occurrence that the rebuild and the walk both index ends up as if the
/// walk alone had, whichever comes first.
pub proof fn lemma_rebuild_overlapping_the_walk(
    index: IndexView,
    key: u128,
    offset: u64,
    timestamp: u64,
    op: u64,
    window_micros: u64,
)
    requires
        index.valid(),
        !index.committed_at(key, offset),
        timestamp >= index_model::floored_difference(
            index_model::larger(index.newest_timestamp, timestamp),
            window_micros,
        ),
    ensures
        ({
            let walked = index.record_committed(key, offset, timestamp, op, window_micros);
            let rebuilt = index.record_committed(key, offset, timestamp, REBUILT_OP, window_micros);
            &&& walked.committed.contains_key(key)
            &&& walked.committed[key] == (Occurrence { offset, timestamp, op })
            &&& walked.record_committed(key, offset, timestamp, REBUILT_OP, window_micros)
                == walked
            &&& rebuilt.record_committed(key, offset, timestamp, op, window_micros) == walked
        }),
{
    let newest = index_model::larger(index.newest_timestamp, timestamp);
    let cutoff = index_model::floored_difference(newest, window_micros);
    let actual = Occurrence { offset, timestamp, op };
    let stored = Occurrence { offset, timestamp, op: REBUILT_OP };
    let added_actual = index.with_newest(key, actual);
    let added_stored = index.with_newest(key, stored);
    index.lemma_with_newest(key, actual);
    index.lemma_with_newest(key, stored);
    assert(added_actual =~= with_op(added_stored, key, op));
    lemma_drop_expired_with_op(added_stored, key, op, cutoff);
    added_stored.lemma_drop_expired(cutoff);
    lemma_drop_excess_with_op(added_stored.drop_expired(cutoff), key, op, cutoff);
    lemma_newest_survives(added_actual, window_micros);
    lemma_newest_survives(added_stored, window_micros);
    let walked = added_actual.evict(window_micros);
    let rebuilt = added_stored.evict(window_micros);
    added_actual.lemma_evict_frame(window_micros);
    added_stored.lemma_evict_frame(window_micros);
    assert(walked.committed[key] == actual);
    assert(rebuilt.committed[key] == stored);
    assert(walked == with_op(rebuilt, key, op));
    assert(walked.committed.insert(key, actual) =~= walked.committed);
    assert(rebuilt.record_committed(key, offset, timestamp, op, window_micros) =~= walked);
    assert(walked.record_committed(key, offset, timestamp, REBUILT_OP, window_micros)
        =~= walked);
}

// ---------------------------------------------------------------------------
// Eviction
// ---------------------------------------------------------------------------

proof fn lemma_last_survives_drop_expired(index: IndexView, cutoff: u64)
    requires
        index.ordered(),
        index.order.len() > 0,
        index.committed[index.order.last()].timestamp >= cutoff,
    ensures
        ({
            let left = index.drop_expired(cutoff);
            &&& left.order.len() > 0
            &&& left.order.last() == index.order.last()
            &&& left.committed[index.order.last()] == index.committed[index.order.last()]
            &&& left.ordered()
        }),
    decreases index.order.len(),
{
    assert(index.order.contains(index.order[0]));
    if index.committed[index.order[0]].timestamp < cutoff {
        assert(index.order.len() > 1);
        index.lemma_drop_oldest();
        assert(index.order.drop_first().last() == index.order.last());
        assert(index.order[0] != index.order.last());
        lemma_last_survives_drop_expired(index.drop_oldest(), cutoff);
    }
}

proof fn lemma_last_survives_drop_excess(index: IndexView, cutoff: u64)
    requires
        index.ordered(),
        index.order.len() > 0,
        index.entries_max >= 1,
    ensures
        ({
            let left = index.drop_excess(cutoff);
            &&& left.order.len() > 0
            &&& left.order.last() == index.order.last()
            &&& left.committed[index.order.last()] == index.committed[index.order.last()]
            &&& left.ordered()
        }),
    decreases index.order.len(),
{
    if index.order.len() > index.entries_max {
        index.lemma_drop_oldest();
        assert(index.order.drop_first().last() == index.order.last());
        assert(index.order[0] != index.order.last());
        lemma_last_survives_drop_excess(index.drop_one_excess(cutoff), cutoff);
    }
}

/// The key recorded last survives eviction while it is inside the window of
/// the newest committed timestamp.
pub proof fn lemma_newest_survives(index: IndexView, window_micros: u64)
    requires
        index.ordered(),
        index.entries_max >= 1,
        index.order.len() > 0,
        index.committed[index.order.last()].timestamp >= index.cutoff(window_micros),
    ensures
        ({
            let left = index.evict(window_micros);
            &&& left.committed.contains_key(index.order.last())
            &&& left.committed[index.order.last()] == index.committed[index.order.last()]
        }),
{
    let cutoff = index.cutoff(window_micros);
    lemma_last_survives_drop_expired(index, cutoff);
    index.lemma_drop_expired_frame(cutoff);
    lemma_last_survives_drop_excess(index.drop_expired(cutoff), cutoff);
    let left = index.evict(window_micros);
    assert(left.order.contains(index.order.last()));
}

proof fn lemma_drop_expired_keeps_a_tail(index: IndexView, cutoff: u64)
    requires
        index.ordered(),
    ensures
        ({
            let left = index.drop_expired(cutoff);
            &&& left.ordered()
            &&& left.order.len() <= index.order.len()
            &&& left.order == index.order.skip(index.order.len() - left.order.len())
            &&& left.committed == index.committed.restrict(left.order.to_set())
            &&& forall|i: int|
                0 <= i < index.order.len() - left.order.len() ==> index.committed[
                #[trigger] index.order[i]].timestamp < cutoff
        }),
    decreases index.order.len(),
{
    if index.order.len() > 0 && index.committed[index.order[0]].timestamp < cutoff {
        let next = index.drop_oldest();
        index.lemma_drop_oldest();
        lemma_drop_expired_keeps_a_tail(next, cutoff);
        let left = index.drop_expired(cutoff);
        assert(left.order =~= index.order.skip(index.order.len() - left.order.len()));
        assert forall|i: int| 0 <= i < index.order.len() - left.order.len() implies index.committed[
        #[trigger] index.order[i]].timestamp < cutoff by {
            if i > 0 {
                assert(next.order[i - 1] == index.order[i]);
                assert(index.order[0] != index.order[i]);
            }
        }
        assert(left.committed =~= index.committed.restrict(left.order.to_set())) by {
            assert forall|key: u128| left.order.contains(key) implies key != index.order[0] by {
                assert(next.committed.contains_key(key));
            }
        }
    } else {
        assert(index.order.skip(0) =~= index.order);
        assert(index.committed =~= index.committed.restrict(index.order.to_set()));
    }
}

proof fn lemma_drop_excess_keeps_a_tail(index: IndexView, cutoff: u64)
    requires
        index.ordered(),
    ensures
        ({
            let left = index.drop_excess(cutoff);
            &&& left.ordered()
            &&& left.order.len() == if index.order.len() > index.entries_max {
                index.entries_max
            } else {
                index.order.len()
            }
            &&& left.order == index.order.skip(index.order.len() - left.order.len())
            &&& left.committed == index.committed.restrict(left.order.to_set())
        }),
    decreases index.order.len(),
{
    if index.order.len() > 0 && index.order.len() > index.entries_max {
        let next = index.drop_one_excess(cutoff);
        index.lemma_drop_oldest();
        lemma_drop_excess_keeps_a_tail(next, cutoff);
        let left = index.drop_excess(cutoff);
        assert(left.order =~= index.order.skip(index.order.len() - left.order.len()));
        assert(left.committed =~= index.committed.restrict(left.order.to_set())) by {
            assert forall|key: u128| left.order.contains(key) implies key != index.order[0] by {
                assert(next.committed.contains_key(key));
            }
        }
    } else {
        assert(index.order.skip(0) =~= index.order);
        assert(index.committed =~= index.committed.restrict(index.order.to_set()));
    }
}

/// Eviction takes the oldest recordings and leaves the rest as they are: the
/// keys left are the newest ones, no more than the cap, and while the cap
/// does not bind only occurrences that have left the window go.
pub proof fn lemma_eviction_takes_the_oldest(index: IndexView, window_micros: u64)
    requires
        index.ordered(),
    ensures
        ({
            let left = index.evict(window_micros);
            let gone = index.order.len() - left.order.len();
            &&& 0 <= gone
            &&& left.order == index.order.skip(gone)
            &&& left.order.len() <= index.entries_max
            &&& left.committed == index.committed.restrict(left.order.to_set())
            &&& left.order.len() < index.entries_max ==> forall|i: int|
                0 <= i < gone ==> index.committed[#[trigger] index.order[i]].timestamp
                    < index.cutoff(window_micros)
        }),
{
    let cutoff = index.cutoff(window_micros);
    let aged = index.drop_expired(cutoff);
    lemma_drop_expired_keeps_a_tail(index, cutoff);
    index.lemma_drop_expired_frame(cutoff);
    lemma_drop_excess_keeps_a_tail(aged, cutoff);
    let left = index.evict(window_micros);
    assert(left.order =~= index.order.skip(index.order.len() - left.order.len()));
    assert(left.committed =~= index.committed.restrict(left.order.to_set())) by {
        assert forall|key: u128| left.order.contains(key) implies aged.order.contains(key) by {
            assert(left.committed.contains_key(key));
            assert(aged.committed.contains_key(key));
        }
    }
}

/// Whether the keys of `order` come by increasing timestamp.
pub open spec fn by_time(order: Seq<u128>, committed: Map<u128, Occurrence>) -> bool {
    forall|i: int, j: int|
        0 <= i < j < order.len() ==> committed[#[trigger] order[i]].timestamp
            <= committed[#[trigger] order[j]].timestamp
}

proof fn lemma_without_by_time(order: Seq<u128>, committed: Map<u128, Occurrence>, key: u128)
    requires
        by_time(order, committed),
    ensures
        by_time(index_model::without(order, key), committed),
    decreases order.len(),
{
    reveal(Seq::filter);
    if order.len() > 0 {
        let front = order.drop_last();
        assert forall|i: int, j: int| 0 <= i < j < front.len() implies committed[#[trigger] front[i]].timestamp
            <= committed[#[trigger] front[j]].timestamp by {
            assert(order[i] == front[i] && order[j] == front[j]);
        }
        lemma_without_by_time(front, committed, key);
        let kept = index_model::without(front, key);
        if order.last() != key {
            let longer = kept.push(order.last());
            assert(index_model::without(order, key) == longer);
            assert forall|i: int, j: int| 0 <= i < j < longer.len() implies committed[#[trigger] longer[i]].timestamp
                <= committed[#[trigger] longer[j]].timestamp by {
                if j == kept.len() {
                    assert(kept.contains(kept[i]));
                    index_model::lemma_without_contains(front, key, kept[i]);
                    let m = choose|m: int| 0 <= m < front.len() && front[m] == kept[i];
                    assert(order[m] == kept[i]);
                    assert(order[order.len() - 1] == order.last());
                }
            }
        }
    }
}

proof fn lemma_drop_expired_by_time(index: IndexView, cutoff: u64)
    requires
        index.ordered(),
        by_time(index.order, index.committed),
    ensures
        ({
            let left = index.drop_expired(cutoff);
            &&& left.ordered()
            &&& by_time(left.order, left.committed)
            &&& forall|key: u128| #[trigger]
                left.committed.contains_key(key) <==> index.committed.contains_key(key)
                    && index.committed[key].timestamp >= cutoff
            &&& forall|key: u128| #[trigger]
                left.committed.contains_key(key) ==> left.committed[key] == index.committed[key]
        }),
    decreases index.order.len(),
{
    if index.order.len() > 0 {
        let oldest = index.order[0];
        assert(index.order.contains(oldest));
        if index.committed[oldest].timestamp < cutoff {
            let next = index.drop_oldest();
            index.lemma_drop_oldest();
            assert forall|i: int, j: int| 0 <= i < j < next.order.len() implies next.committed[#[trigger] next.order[i]].timestamp
                <= next.committed[#[trigger] next.order[j]].timestamp by {
                assert(index.order[i + 1] == next.order[i] && index.order[j + 1] == next.order[j]);
                assert(index.order[0] != index.order[i + 1] && index.order[0] != index.order[j
                    + 1]);
            }
            lemma_drop_expired_by_time(next, cutoff);
        } else {
            assert forall|key: u128| #[trigger]
                index.committed.contains_key(key) implies index.committed[key].timestamp
                >= cutoff by {
                assert(index.order.contains(key));
                let i = choose|i: int| 0 <= i < index.order.len() && index.order[i] == key;
                if i > 0 {
                    assert(index.committed[index.order[0]].timestamp
                        <= index.committed[index.order[i]].timestamp);
                }
            }
        }
    } else {
        assert forall|key: u128| !index.committed.contains_key(key) by {
            assert(!index.order.contains(key));
        }
    }
}

/// Dropping to the cap never lowers the count of live evictions, and raises it
/// when there is something live to drop first.
proof fn lemma_drop_excess_counts(index: IndexView, cutoff: u64)
    ensures
        index.drop_excess(cutoff).counters.evicted_live >= index.counters.evicted_live,
        index.order.len() > 0 && index.order.len() > index.entries_max
            && index.committed[index.order[0]].timestamp >= cutoff && index.counters.evicted_live
            < u64::MAX ==> index.drop_excess(cutoff).counters.evicted_live
            > index.counters.evicted_live,
    decreases index.order.len(),
{
    if index.order.len() > 0 && index.order.len() > index.entries_max {
        lemma_drop_excess_counts(index.drop_one_excess(cutoff), cutoff);
    }
}

proof fn lemma_record_committed_counts(index: IndexView, record: LogRecord, window_micros: u64)
    ensures
        index.record_committed(
            record.key,
            record.offset,
            record.timestamp,
            record.op,
            window_micros,
        ).counters.evicted_live >= index.counters.evicted_live,
{
    let added = index.with_newest(record.key, record.occurrence());
    let cutoff = added.cutoff(window_micros);
    added.lemma_drop_expired_frame(cutoff);
    lemma_drop_excess_counts(added.drop_expired(cutoff), cutoff);
}

proof fn lemma_drop_excess_spares_the_live(index: IndexView, cutoff: u64)
    requires
        index.ordered(),
        index.counters.evicted_live < u64::MAX,
        index.drop_excess(cutoff).counters.evicted_live == index.counters.evicted_live,
    ensures
        forall|key: u128| #[trigger]
            index.committed.contains_key(key) && index.committed[key].timestamp >= cutoff ==> {
                let left = index.drop_excess(cutoff);
                left.committed.contains_key(key) && left.committed[key] == index.committed[key]
            },
    decreases index.order.len(),
{
    if index.order.len() > 0 && index.order.len() > index.entries_max {
        index.lemma_drop_oldest();
        lemma_drop_excess_counts(index, cutoff);
        let next = index.drop_one_excess(cutoff);
        lemma_drop_excess_counts(next, cutoff);
        lemma_drop_excess_spares_the_live(next, cutoff);
        assert forall|key: u128| #[trigger]
            index.committed.contains_key(key) && index.committed[key].timestamp >= cutoff implies {
            let left = index.drop_excess(cutoff);
            left.committed.contains_key(key) && left.committed[key] == index.committed[key]
        } by {
            assert(next.committed.contains_key(key));
        }
    }
}

/// Eviction that counts no live entry takes none: every key inside the window
/// of the newest committed timestamp stays as it was.
pub proof fn lemma_unsaturated_eviction_spares_the_live(index: IndexView, window_micros: u64)
    requires
        index.ordered(),
        index.counters.evicted_live < u64::MAX,
        index.evict(window_micros).counters.evicted_live == index.counters.evicted_live,
    ensures
        forall|key: u128| #[trigger]
            index.committed.contains_key(key) && index.committed[key].timestamp >= index.cutoff(
                window_micros,
            ) ==> {
                let left = index.evict(window_micros);
                left.committed.contains_key(key) && left.committed[key] == index.committed[key]
            },
{
    let cutoff = index.cutoff(window_micros);
    let aged = index.drop_expired(cutoff);
    lemma_drop_expired_keeps_a_tail(index, cutoff);
    index.lemma_drop_expired_frame(cutoff);
    lemma_drop_excess_spares_the_live(aged, cutoff);
    assert forall|key: u128| #[trigger]
        index.committed.contains_key(key) && index.committed[key].timestamp >= cutoff implies {
        let left = index.evict(window_micros);
        left.committed.contains_key(key) && left.committed[key] == index.committed[key]
    } by {
        assert(index.order.contains(key));
        let i = choose|i: int| 0 <= i < index.order.len() && index.order[i] == key;
        let gone = index.order.len() - aged.order.len();
        assert(aged.order[i - gone] == key);
        assert(aged.order.contains(key));
        assert(aged.committed.contains_key(key));
    }
}

/// Whether `keys` are all stamped with `timestamp`, and those that are indexed
/// at their offset already are indexed with it too.
pub open spec fn stamped_alike(index: IndexView, keys: Seq<StampedKey>, timestamp: u64) -> bool {
    forall|i: int|
        0 <= i < keys.len() ==> {
            &&& (#[trigger] keys[i]).timestamp == timestamp
            &&& index.committed_at(keys[i].key, keys[i].offset) ==> index.committed[keys[i].key].timestamp
                == timestamp
        }
}

proof fn lemma_fold_committed_counts(
    index: IndexView,
    keys: Seq<StampedKey>,
    op: u64,
    window_micros: u64,
)
    ensures
        batch::fold_committed(index, keys, op, window_micros).counters.evicted_live
            >= index.counters.evicted_live,
    decreases keys.len(),
{
    if keys.len() > 0 {
        let last = keys.last();
        lemma_fold_committed_counts(index, keys.drop_last(), op, window_micros);
        lemma_record_committed_counts(
            batch::fold_committed(index, keys.drop_last(), op, window_micros),
            LogRecord { key: last.key, offset: last.offset, timestamp: last.timestamp, op },
            window_micros,
        );
    }
}

proof fn lemma_folded_keys_are_held(
    index: IndexView,
    keys: Seq<StampedKey>,
    n: nat,
    timestamp: u64,
    op: u64,
    window_micros: u64,
)
    requires
        n <= keys.len(),
        index.valid(),
        stamped_alike(index, keys, timestamp),
        timestamp >= index_model::floored_difference(
            index_model::larger(index.newest_timestamp, timestamp),
            window_micros,
        ),
        index.counters.evicted_live < u64::MAX,
        batch::fold_committed(
            index,
            keys.take(n as int),
            op,
            window_micros,
        ).counters.evicted_live == index.counters.evicted_live,
    ensures
        ({
            let folded = batch::fold_committed(index, keys.take(n as int), op, window_micros);
            &&& folded.valid()
            &&& folded.newest_timestamp <= index_model::larger(index.newest_timestamp, timestamp)
            &&& stamped_alike(folded, keys, timestamp)
            &&& forall|i: int|
                0 <= i < n ==> folded.committed.contains_key((#[trigger] keys[i]).key)
                    && folded.committed[keys[i].key].timestamp == timestamp
        }),
    decreases n,
{
    if n == 0 {
        assert(keys.take(0) =~= Seq::empty());
    } else {
        let before_n = (n - 1) as nat;
        let last = keys[n - 1];
        let record = LogRecord { key: last.key, offset: last.offset, timestamp, op };
        assert(last.timestamp == timestamp);
        assert(keys.take(n as int).drop_last() =~= keys.take(before_n as int));
        assert(keys.take(n as int).last() == last);
        let before = batch::fold_committed(
            index,
            keys.take(before_n as int),
            op,
            window_micros,
        );
        lemma_fold_committed_counts(index, keys.take(before_n as int), op, window_micros);
        lemma_record_committed_counts(before, record, window_micros);
        lemma_folded_keys_are_held(index, keys, before_n, timestamp, op, window_micros);
        before.lemma_record_committed_valid(
            last.key,
            last.offset,
            timestamp,
            op,
            window_micros,
        );
        let folded = batch::fold_committed(index, keys.take(n as int), op, window_micros);
        if !before.committed_at(last.key, last.offset) {
            let added = before.with_newest(last.key, record.occurrence());
            before.lemma_with_newest(last.key, record.occurrence());
            added.lemma_evict_frame(window_micros);
            lemma_unsaturated_eviction_spares_the_live(added, window_micros);
            lemma_eviction_takes_the_oldest(added, window_micros);
            assert forall|i: int| 0 <= i < keys.len() implies (folded.committed_at(
                (#[trigger] keys[i]).key,
                keys[i].offset,
            ) ==> folded.committed[keys[i].key].timestamp == timestamp) && keys[i].timestamp
                == timestamp by {
                if folded.committed.contains_key(keys[i].key) {
                    assert(folded.committed[keys[i].key] == added.committed[keys[i].key]);
                }
            }
            assert forall|i: int| 0 <= i < n implies folded.committed.contains_key(
                (#[trigger] keys[i]).key,
            ) && folded.committed[keys[i].key].timestamp == timestamp by {
                assert(added.committed.contains_key(keys[i].key));
                assert(added.committed[keys[i].key].timestamp == timestamp);
            }
        }
    }
}

/// A resend of a batch that was just folded is dropped: while folding it took
/// nothing live, every key of the batch matches as committed until the window
/// of the batch ends.
pub proof fn lemma_resent_batch_is_dropped(
    index: IndexView,
    keys: Seq<StampedKey>,
    timestamp: u64,
    op: u64,
    window_micros: u64,
    now: u64,
    commit_op: u64,
    i: int,
)
    requires
        index.valid(),
        stamped_alike(index, keys, timestamp),
        timestamp >= index_model::floored_difference(
            index_model::larger(index.newest_timestamp, timestamp),
            window_micros,
        ),
        index.counters.evicted_live < u64::MAX,
        batch::fold_committed(index, keys, op, window_micros).counters.evicted_live
            == index.counters.evicted_live,
        index_model::inside_window(timestamp, window_micros, now),
        0 <= i < keys.len(),
    ensures
        batch::fold_committed(index, keys, op, window_micros).sweep_committed_through(op).lookup(
            keys[i].key,
            now,
            window_micros,
            commit_op,
        ) == Some(DedupMatch::Committed),
{
    assert(keys.take(keys.len() as int) =~= keys);
    lemma_folded_keys_are_held(index, keys, keys.len(), timestamp, op, window_micros);
}

// ---------------------------------------------------------------------------
// The index over a log
// ---------------------------------------------------------------------------

/// Whether `log` reads as a partition's log does: offsets grow, and
/// timestamps never fall.
pub open spec fn in_log_order(log: Seq<LogRecord>) -> bool {
    forall|i: int, j: int|
        0 <= i < j < log.len() ==> {
            &&& (#[trigger] log[i]).offset < (#[trigger] log[j]).offset
            &&& log[i].timestamp <= log[j].timestamp
        }
}

/// The last message of `log` with `key`.
pub open spec fn latest(log: Seq<LogRecord>, key: u128) -> Option<LogRecord>
    decreases log.len(),
{
    if log.len() == 0 {
        None
    } else if log.last().key == key {
        Some(log.last())
    } else {
        latest(log.drop_last(), key)
    }
}

/// The last message with a key is in the log, and no earlier than any other.
pub proof fn lemma_latest(log: Seq<LogRecord>, key: u128)
    ensures
        match latest(log, key) {
            Some(record) => {
                &&& log.contains(record)
                &&& record.key == key
                &&& in_log_order(log) ==> forall|i: int|
                    0 <= i < log.len() && (#[trigger] log[i]).key == key ==> log[i].timestamp
                        <= record.timestamp && log[i].offset <= record.offset
            },
            None => forall|i: int| 0 <= i < log.len() ==> (#[trigger] log[i]).key != key,
        },
    decreases log.len(),
{
    if log.len() > 0 {
        let front = log.drop_last();
        lemma_latest(front, key);
        assert(log[log.len() - 1] == log.last());
        if in_log_order(log) {
            assert forall|i: int, j: int| 0 <= i < j < front.len() implies {
                &&& (#[trigger] front[i]).offset < (#[trigger] front[j]).offset
                &&& front[i].timestamp <= front[j].timestamp
            } by {
                assert(log[i] == front[i] && log[j] == front[j]);
            }
        }
        if log.last().key != key {
            match latest(front, key) {
                Some(record) => {
                    let m = choose|m: int| 0 <= m < front.len() && front[m] == record;
                    assert(log[m] == record);
                    assert forall|i: int|
                        in_log_order(log) && 0 <= i < log.len() && (#[trigger] log[i]).key
                            == key implies log[i].timestamp <= record.timestamp && log[i].offset
                        <= record.offset by {
                        assert(i < front.len());
                        assert(front[i] == log[i]);
                    }
                },
                None => {
                    assert forall|i: int| 0 <= i < log.len() implies (#[trigger] log[i]).key
                        != key by {
                        if i < front.len() {
                            assert(front[i] == log[i]);
                        }
                    }
                },
            }
        }
    }
}

/// An index that holds nothing committed yet, whatever is pending.
pub open spec fn nothing_committed(index: IndexView) -> bool {
    &&& index.committed == Map::<u128, Occurrence>::empty()
    &&& index.order == Seq::<u128>::empty()
    &&& index.newest_timestamp == 0
    &&& index.entries_max >= 1
    &&& index.counters.evicted_live < u64::MAX
}

/// Whether the cap never evicted a live entry while `log` was indexed.
pub open spec fn never_saturated(index: IndexView, log: Seq<LogRecord>, window_micros: u64) -> bool {
    replay(index, log, window_micros).counters.evicted_live == index.counters.evicted_live
}

/// The newest timestamp of `log`.
pub open spec fn newest_of(log: Seq<LogRecord>) -> u64 {
    if log.len() == 0 {
        0
    } else {
        log.last().timestamp
    }
}

/// The index holds the window: of every key whose last committed message is no
/// older than the window behind the newest one, exactly that message, and no
/// other key.
pub proof fn lemma_index_holds_the_window(
    index: IndexView,
    log: Seq<LogRecord>,
    window_micros: u64,
)
    requires
        nothing_committed(index),
        in_log_order(log),
        never_saturated(index, log, window_micros),
    ensures
        ({
            let held = replay(index, log, window_micros);
            &&& held.valid()
            &&& by_time(held.order, held.committed)
            &&& held.newest_timestamp == newest_of(log)
            &&& forall|key: u128| #[trigger]
                held.committed.contains_key(key) <==> (latest(log, key) matches Some(record)
                    && record.timestamp >= held.cutoff(window_micros))
            &&& forall|key: u128| #[trigger]
                held.committed.contains_key(key) ==> held.committed[key] == latest(
                    log,
                    key,
                )->0.occurrence()
        }),
    decreases log.len(),
{
    let held = replay(index, log, window_micros);
    if log.len() > 0 {
        let front = log.drop_last();
        let last = log.last();
        let before = replay(index, front, window_micros);
        assert forall|i: int, j: int| 0 <= i < j < front.len() implies {
            &&& (#[trigger] front[i]).offset < (#[trigger] front[j]).offset
            &&& front[i].timestamp <= front[j].timestamp
        } by {
            assert(log[i] == front[i] && log[j] == front[j]);
        }
        lemma_record_committed_counts(before, last, window_micros);
        lemma_replay_counts(index, front, window_micros);
        lemma_index_holds_the_window(index, front, window_micros);
        before.lemma_record_committed_valid(
            last.key,
            last.offset,
            last.timestamp,
            last.op,
            window_micros,
        );
        assert(!before.committed_at(last.key, last.offset)) by {
            if before.committed.contains_key(last.key) {
                lemma_latest(front, last.key);
                let record = latest(front, last.key)->0;
                let m = choose|m: int| 0 <= m < front.len() && front[m] == record;
                assert(log[m] == record);
                assert(log[m].offset < log[log.len() - 1].offset);
            }
        }
        let added = before.with_newest(last.key, last.occurrence());
        before.lemma_with_newest(last.key, last.occurrence());
        lemma_older_than_last(before, log, window_micros);
        lemma_with_newest_by_time(before, last);
        let cutoff = added.cutoff(window_micros);
        lemma_drop_expired_by_time(added, cutoff);
        added.lemma_drop_expired_frame(cutoff);
        let aged = added.drop_expired(cutoff);
        lemma_drop_excess_counts(aged, cutoff);
        if aged.order.len() > aged.entries_max {
            assert(aged.order.contains(aged.order[0]));
            assert(aged.committed.contains_key(aged.order[0]));
            assert(false);
        }
        assert(held == aged);
        assert forall|key: u128| #[trigger]
            held.committed.contains_key(key) <==> (latest(log, key) matches Some(record)
                && record.timestamp >= cutoff) by {
            if key != last.key {
                assert(latest(log, key) == latest(front, key));
                assert(added.committed.contains_key(key) <==> before.committed.contains_key(key));
                assert(before.cutoff(window_micros) <= cutoff) by {
                    if front.len() > 0 {
                        assert(log[front.len() - 1] == front.last());
                        assert(log[log.len() - 1] == last);
                    }
                }
            }
        }
    } else {
        assert forall|key: u128| #[trigger]
            held.committed.contains_key(key) <==> held.order.contains(key) by {}
    }
}

/// Live evictions only ever add up.
proof fn lemma_replay_counts(index: IndexView, log: Seq<LogRecord>, window_micros: u64)
    ensures
        replay(index, log, window_micros).counters.evicted_live >= index.counters.evicted_live,
    decreases log.len(),
{
    if log.len() > 0 {
        lemma_replay_counts(index, log.drop_last(), window_micros);
        lemma_record_committed_counts(
            replay(index, log.drop_last(), window_micros),
            log.last(),
            window_micros,
        );
    }
}

/// What is held of a log's front is no newer than the log's last message.
proof fn lemma_older_than_last(held: IndexView, log: Seq<LogRecord>, window_micros: u64)
    requires
        log.len() > 0,
        in_log_order(log),
        forall|key: u128| #[trigger]
            held.committed.contains_key(key) ==> latest(log.drop_last(), key) is Some
                && held.committed[key] == latest(log.drop_last(), key)->0.occurrence(),
    ensures
        forall|key: u128| #[trigger]
            held.committed.contains_key(key) ==> held.committed[key].timestamp
                <= log.last().timestamp,
{
    let front = log.drop_last();
    assert forall|key: u128| #[trigger]
        held.committed.contains_key(key) implies held.committed[key].timestamp
        <= log.last().timestamp by {
        lemma_latest(front, key);
        let record = latest(front, key)->0;
        let m = choose|m: int| 0 <= m < front.len() && front[m] == record;
        assert(log[m] == record);
        assert(log[log.len() - 1] == log.last());
    }
}

proof fn lemma_with_newest_by_time(held: IndexView, record: LogRecord)
    requires
        held.ordered(),
        by_time(held.order, held.committed),
        forall|key: u128| #[trigger]
            held.committed.contains_key(key) ==> held.committed[key].timestamp <= record.timestamp,
    ensures
        ({
            let added = held.with_newest(record.key, record.occurrence());
            by_time(added.order, added.committed)
        }),
{
    let added = held.with_newest(record.key, record.occurrence());
    let kept = index_model::without(held.order, record.key);
    lemma_without_by_time(held.order, held.committed, record.key);
    assert forall|i: int| 0 <= i < kept.len() implies #[trigger] kept[i] != record.key
        && held.committed.contains_key(kept[i]) by {
        assert(kept.contains(kept[i]));
        index_model::lemma_without_contains(held.order, record.key, kept[i]);
        assert(held.order.contains(kept[i]));
    }
    assert forall|i: int, j: int| 0 <= i < j < added.order.len() implies added.committed[#[trigger] added.order[i]].timestamp
        <= added.committed[#[trigger] added.order[j]].timestamp by {
        assert(added.order[i] == kept[i]);
        if j < kept.len() {
            assert(added.order[j] == kept[j]);
        }
    }
}

// ---------------------------------------------------------------------------
// Matching
// ---------------------------------------------------------------------------

/// A committed message is a duplicate as soon as it is indexed: its key
/// matches as committed until its window ends.
pub proof fn lemma_indexed_key_matches(
    index: IndexView,
    record: LogRecord,
    now: u64,
    window_micros: u64,
    commit_op: u64,
)
    requires
        index.valid(),
        index.committed_at(record.key, record.offset) ==> index.committed[record.key].timestamp
            == record.timestamp,
        record.timestamp >= index_model::floored_difference(
            index_model::larger(index.newest_timestamp, record.timestamp),
            window_micros,
        ),
    ensures
        index.record_committed(
            record.key,
            record.offset,
            record.timestamp,
            record.op,
            window_micros,
        ).lookup(record.key, now, window_micros, commit_op) == Some(DedupMatch::Committed)
            <==> index_model::inside_window(record.timestamp, window_micros, now),
{
    if !index.committed_at(record.key, record.offset) {
        index.lemma_with_newest(record.key, record.occurrence());
        lemma_newest_survives(
            index.with_newest(record.key, record.occurrence()),
            window_micros,
        );
    }
}

/// A commit clears every pending key at or below its op, reported or not, and
/// leaves every other match as it was.
pub proof fn lemma_sweep_clears_the_op(
    index: IndexView,
    op: u64,
    key: u128,
    now: u64,
    window_micros: u64,
    commit_op: u64,
)
    ensures
        ({
            let left = index.sweep_committed_through(op);
            &&& left.pending.contains_key(key) <==> index.pending.contains_key(key)
                && index.pending[key].op > op
            &&& left.lookup(key, now, window_micros, commit_op) == index.lookup(
                key,
                now,
                window_micros,
                index_model::larger(op, commit_op),
            )
        }),
{
}

/// A truncation clears every pending key of the ops it takes away and never a
/// committed one.
pub proof fn lemma_truncation_rolls_back(
    index: IndexView,
    from_op: u64,
    key: u128,
    now: u64,
    window_micros: u64,
    commit_op: u64,
)
    ensures
        ({
            let left = index.truncate_from_op(from_op);
            let before = index.lookup(key, now, window_micros, commit_op);
            &&& before == Some(DedupMatch::Committed) ==> left.lookup(
                key,
                now,
                window_micros,
                commit_op,
            ) == before
            &&& before == Some(DedupMatch::Uncommitted) ==> left.lookup(
                key,
                now,
                window_micros,
                commit_op,
            ) == if index.pending[key].op < from_op {
                before
            } else {
                None
            }
            &&& before is None ==> left.lookup(key, now, window_micros, commit_op) is None
        }),
{
}

/// A pending key at or below the commit point is ignored: it matches nothing,
/// so it can never hold back the commits that would sweep it.
pub proof fn lemma_pending_at_or_below_the_commit_point_is_ignored(
    index: IndexView,
    key: u128,
    now: u64,
    window_micros: u64,
    commit_op: u64,
)
    requires
        index.pending.contains_key(key),
        index.pending[key].op <= commit_op,
    ensures
        index.lookup(key, now, window_micros, commit_op) != Some(DedupMatch::Uncommitted),
{
}

// ---------------------------------------------------------------------------
// Decisions
// ---------------------------------------------------------------------------

/// Two screenings whose indexes hold the same committed occurrences, ops
/// aside, at the same time and window.
pub open spec fn same_committed_sight(left: Screening, right: Screening) -> bool {
    &&& without_ops(left.index.committed) == without_ops(right.index.committed)
    &&& left.now == right.now
    &&& left.window_micros == right.window_micros
}

/// Nothing is dropped on the strength of a pending key: which messages are
/// kept, and how many are dropped, depends on the committed half alone.
pub proof fn lemma_pending_never_drops(
    left: Screening,
    right: Screening,
    keys: Seq<Option<u128>>,
    n: nat,
)
    requires
        same_committed_sight(left, right),
        n <= keys.len(),
    ensures
        forall|i: int| 0 <= i < n ==> left.keeps(keys, i) == right.keeps(keys, i),
        left.kept_keys(keys, n) == right.kept_keys(keys, n),
        left.dropped(keys, n) == right.dropped(keys, n),
    decreases n,
{
    if n > 0 {
        lemma_pending_never_drops(left, right, keys, (n - 1) as nat);
        if let Some(key) = keys[n - 1] {
            lemma_same_sight(left, right, key);
        }
    }
}

proof fn lemma_same_sight(left: Screening, right: Screening, key: u128)
    requires
        same_committed_sight(left, right),
    ensures
        left.lookup(key) == Some(DedupMatch::Committed) <==> right.lookup(key) == Some(
            DedupMatch::Committed,
        ),
{
    let bare_left = without_ops(left.index.committed);
    let bare_right = without_ops(right.index.committed);
    assert(bare_left.contains_key(key) == left.index.committed.contains_key(key));
    assert(bare_right.contains_key(key) == right.index.committed.contains_key(key));
    if bare_left.contains_key(key) {
        assert(bare_left[key].timestamp == left.index.committed[key].timestamp);
        assert(bare_right[key].timestamp == right.index.committed[key].timestamp);
    }
}

/// Whether two screenings have the same keys pending above their commit point.
pub open spec fn same_uncommitted_sight(left: Screening, right: Screening) -> bool {
    forall|key: u128|
        (left.index.pending.contains_key(key) && left.index.pending[key].op > left.commit_op)
            == (#[trigger] right.index.pending.contains_key(key) && right.index.pending[key].op
            > right.commit_op)
}

/// A backup promoted by a view change decides exactly as its predecessor would
/// have: two replicas that committed the same log, one of which may have been
/// rebuilt from storage, and that hold the same uncommitted keys, take the
/// same decision on every batch.
pub proof fn lemma_promoted_backup_decides_alike(
    left_start: IndexView,
    right_start: IndexView,
    log: Seq<LogRecord>,
    left: Screening,
    right: Screening,
    keys: Seq<Option<u128>>,
)
    requires
        nothing_committed(left_start),
        nothing_committed(right_start),
        left_start.entries_max == right_start.entries_max,
        left.now == right.now,
        left.window_micros == right.window_micros,
        committed_half(left.index) == committed_half(replay(left_start, log, left.window_micros)),
        committed_half(right.index) == committed_half(
            replay(right_start, log, left.window_micros),
        ) || committed_half(right.index) == committed_half(
            replay(right_start, as_stored(log), left.window_micros),
        ),
        same_uncommitted_sight(left, right),
    ensures
        forall|i: int| 0 <= i < keys.len() ==> left.keeps(keys, i) == right.keeps(keys, i),
        left.kept_keys(keys, keys.len()) == right.kept_keys(keys, keys.len()),
        left.dropped(keys, keys.len()) == right.dropped(keys, keys.len()),
        left.matches_uncommitted(keys) == right.matches_uncommitted(keys),
{
    let window = left.window_micros;
    lemma_nothing_committed_is_valid(left_start);
    lemma_nothing_committed_is_valid(right_start);
    lemma_rebuild_matches_the_commit_walk(left_start, log, window);
    lemma_rebuild_matches_the_commit_walk(right_start, log, window);
    lemma_rebuild_matches_the_commit_walk(right_start, as_stored(log), window);
    assert(as_stored(as_stored(log)) =~= as_stored(log));
    assert(committed_half(forget_ops(left_start)) == committed_half(forget_ops(right_start)));
    lemma_same_log_same_committed_half(
        forget_ops(left_start),
        forget_ops(right_start),
        as_stored(log),
        window,
    );
    assert(same_committed_sight(left, right));
    lemma_pending_never_drops(left, right, keys, keys.len());
    assert forall|i: int| 0 <= i < keys.len() implies left.is_uncommitted(#[trigger] keys[i])
        == right.is_uncommitted(keys[i]) by {
        if let Some(key) = keys[i] {
            lemma_same_sight(left, right, key);
            assert(right.index.pending.contains_key(key) == right.index.pending.contains_key(key));
        }
    }
    if left.matches_uncommitted(keys) {
        let i = choose|i: int| 0 <= i < keys.len() && left.is_uncommitted(#[trigger] keys[i]);
        assert(right.is_uncommitted(keys[i]));
    }
    if right.matches_uncommitted(keys) {
        let i = choose|i: int| 0 <= i < keys.len() && right.is_uncommitted(#[trigger] keys[i]);
        assert(left.is_uncommitted(keys[i]));
    }
}

/// An index that holds nothing committed is valid.
pub proof fn lemma_nothing_committed_is_valid(index: IndexView)
    requires
        nothing_committed(index),
    ensures
        index.valid(),
{
    assert forall|key: u128| #[trigger]
        index.committed.contains_key(key) <==> index.order.contains(key) by {}
}

// ---------------------------------------------------------------------------
// Identity
// ---------------------------------------------------------------------------

/// Whether `entries` carry the header `name`, with the value `value` wherever
/// they do.
pub open spec fn carries(entries: Seq<HeaderEntry>, name: Seq<u8>, value: Field) -> bool {
    &&& exists|i: int| 0 <= i < entries.len() && (#[trigger] entries[i]).key.content == name
    &&& forall|i: int|
        0 <= i < entries.len() && (#[trigger] entries[i]).key.content == name ==> entries[i].value
            == value
}

proof fn lemma_carried_value_is_the_identity(block: Seq<u8>, name: Seq<u8>, value: Field)
    requires
        user_headers::decode(block) matches Some(entries) && carries(entries, name, value),
    ensures
        user_headers::identity(block, name) == Some(seq![value.kind] + value.content),
{
    let entries = user_headers::decode(block)->0;
    user_headers::lemma_first_named(entries, name);
    let i = choose|i: int| 0 <= i < entries.len() && (#[trigger] entries[i]).key.content == name;
    assert(user_headers::first_named(entries, name) is Some);
}

/// A message is known by the value of its dedup header alone: two header
/// blocks that give the header the same value, in kind and bytes, give the
/// same key, whatever other headers they carry, in whatever order, and
/// whatever the kind of the header's key.
pub proof fn lemma_same_value_is_the_same_key(
    left: Seq<u8>,
    right: Seq<u8>,
    name: Seq<u8>,
    value: Field,
)
    requires
        user_headers::decode(left) matches Some(entries) && carries(entries, name, value),
        user_headers::decode(right) matches Some(entries) && carries(entries, name, value),
    ensures
        key::key_of(left, name) is Some,
        key::key_of(left, name) == key::key_of(right, name),
{
    lemma_carried_value_is_the_identity(left, name, value);
    lemma_carried_value_is_the_identity(right, name, value);
}

/// The kind of the header's value is part of the identity, and so is every
/// byte of it: what is hashed differs as soon as either does.
pub proof fn lemma_value_kind_is_part_of_the_identity(
    left: Seq<u8>,
    right: Seq<u8>,
    name: Seq<u8>,
    left_value: Field,
    right_value: Field,
)
    requires
        user_headers::decode(left) matches Some(entries) && carries(entries, name, left_value),
        user_headers::decode(right) matches Some(entries) && carries(entries, name, right_value),
        left_value != right_value,
    ensures
        user_headers::identity(left, name) != user_headers::identity(right, name),
{
    lemma_carried_value_is_the_identity(left, name, left_value);
    lemma_carried_value_is_the_identity(right, name, right_value);
    let left_bytes = seq![left_value.kind] + left_value.content;
    let right_bytes = seq![right_value.kind] + right_value.content;
    if left_bytes == right_bytes {
        assert(left_bytes[0] == left_value.kind && right_bytes[0] == right_value.kind);
        assert(left_value.content =~= left_bytes.skip(1));
        assert(right_value.content =~= right_bytes.skip(1));
    }
}

/// A message that does not carry the header has no key.
pub proof fn lemma_no_header_no_key(block: Seq<u8>, name: Seq<u8>)
    requires
        user_headers::decode(block) matches Some(entries) ==> forall|i: int|
            0 <= i < entries.len() ==> (#[trigger] entries[i]).key.content != name,
    ensures
        key::key_of(block, name) is None,
{
    if let Some(entries) = user_headers::decode(block) {
        user_headers::lemma_first_named(entries, name);
    }
}

} // verus!
