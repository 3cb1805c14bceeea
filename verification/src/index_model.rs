//! The mathematical model of the dedup index.
//!
//! [`IndexView`] is what an index holds, free of how it is stored: the
//! committed occurrences by key, their keys from the oldest recording to the
//! newest, the pending occurrences by key, and the reference points eviction
//! is measured against. Each operation of the index is a function on it.

use vstd::prelude::*;

use crate::wire;

verus! {

/// Op recorded for entries rebuilt from committed storage, which does not
/// store ops. Such entries are committed by construction and never truncated.
pub const REBUILT_OP: u64 = 0;

/// Counters a partition drains into shard metrics.
#[derive(Debug, Clone, Copy, PartialEq, Eq, Structural)]
pub struct DedupCounters {
    /// Messages removed from requests because their key was committed and
    /// inside the window.
    pub dropped: u64,
    /// Requests refused transiently because a key matched an uncommitted
    /// occurrence.
    pub deferred: u64,
    /// Committed entries evicted by the entry cap while still inside the
    /// window.
    pub evicted_live: u64,
    /// Committed ops whose batch could not be read back at commit, so their
    /// keys were not indexed.
    pub unconfirmed_commits: u64,
}

impl DedupCounters {
    /// Every counter at zero.
    pub open spec fn zero() -> DedupCounters {
        DedupCounters { dropped: 0, deferred: 0, evicted_live: 0, unconfirmed_commits: 0 }
    }
}

impl Default for DedupCounters {
    fn default() -> (counters: Self)
        ensures
            counters == DedupCounters::zero(),
            counters.dropped == 0,
            counters.deferred == 0,
            counters.evicted_live == 0,
            counters.unconfirmed_commits == 0,
    {
        DedupCounters { dropped: 0, deferred: 0, evicted_live: 0, unconfirmed_commits: 0 }
    }
}

/// How a key matched the index.
#[derive(Debug, Clone, Copy, PartialEq, Eq, Structural)]
pub enum DedupMatch {
    /// A committed occurrence inside the window: the message is a duplicate.
    Committed,
    /// An appended occurrence that is not committed yet: whether the message
    /// is a duplicate is not known until it commits or is truncated.
    Uncommitted,
}

/// One occurrence of a key: where it was appended, when, and by which op.
pub struct Occurrence {
    pub offset: u64,
    pub timestamp: u64,
    pub op: u64,
}

/// The sum of two `u64` values, capped at the largest `u64`.
pub open spec fn capped_sum(a: u64, b: u64) -> u64 {
    if a + b > u64::MAX {
        u64::MAX
    } else {
        (a + b) as u64
    }
}

/// The difference of two `u64` values, floored at zero.
pub open spec fn floored_difference(a: u64, b: u64) -> u64 {
    if a >= b {
        (a - b) as u64
    } else {
        0
    }
}

/// The larger of two `u64` values.
pub open spec fn larger(a: u64, b: u64) -> u64 {
    if a >= b {
        a
    } else {
        b
    }
}

/// The test for a key other than `key`.
pub open spec fn other_than(key: u128) -> spec_fn(u128) -> bool {
    |other: u128| other != key
}

/// `keys` with every item equal to `key` taken out.
pub open spec fn without(keys: Seq<u128>, key: u128) -> Seq<u128> {
    keys.filter(other_than(key))
}

/// Taking a key out leaves exactly the other ones.
pub proof fn lemma_without_contains(keys: Seq<u128>, key: u128, other: u128)
    ensures
        without(keys, key).contains(other) <==> keys.contains(other) && other != key,
    decreases keys.len(),
{
    reveal(Seq::filter);
    if keys.len() > 0 {
        let front = keys.drop_last();
        let last = keys.last();
        lemma_without_contains(front, key, other);
        assert(keys =~= front.push(last));
        if front.contains(other) {
            let i = choose|i: int| 0 <= i < front.len() && front[i] == other;
            assert(keys[i] == other);
        }
        if keys.contains(other) && !front.contains(other) {
            let i = choose|i: int| 0 <= i < keys.len() && keys[i] == other;
            if i < front.len() {
                assert(front[i] == other);
            }
        }
        if last != key {
            let kept = without(front, key);
            assert(without(keys, key) == kept.push(last));
            assert(kept.push(last)[kept.len() as int] == last);
            if kept.contains(other) {
                let i = choose|i: int| 0 <= i < kept.len() && kept[i] == other;
                assert(kept.push(last)[i] == other);
            }
        }
    }
}

/// Taking a key out keeps distinct keys distinct.
pub proof fn lemma_without_keeps_distinct(keys: Seq<u128>, key: u128)
    requires
        keys.no_duplicates(),
    ensures
        without(keys, key).no_duplicates(),
    decreases keys.len(),
{
    reveal(Seq::filter);
    if keys.len() > 0 {
        let front = keys.drop_last();
        lemma_without_keeps_distinct(front, key);
        lemma_without_contains(front, key, keys.last());
        assert(!front.contains(keys.last()));
    }
}

/// Whether an occurrence appended at `timestamp` is inside a window of
/// `window_micros` as of `now`. The window is half-open: it ends at
/// `timestamp + window_micros`.
pub open spec fn inside_window(timestamp: u64, window_micros: u64, now: u64) -> bool {
    capped_sum(timestamp, window_micros) > now
}

/// Whether `listing` gives each committed occurrence once, as its key,
/// offset, timestamp and op, by increasing key.
pub open spec fn lists(
    committed: Map<u128, Occurrence>,
    listing: Seq<(u128, u64, u64, u64)>,
) -> bool {
    &&& forall|i: int, j: int|
        0 <= i < j < listing.len() ==> (#[trigger] listing[i]).0 < (#[trigger] listing[j]).0
    &&& forall|i: int|
        0 <= i < listing.len() ==> {
            let (key, offset, timestamp, op) = #[trigger] listing[i];
            &&& committed.contains_key(key)
            &&& committed[key] == (Occurrence { offset, timestamp, op })
        }
    &&& forall|key: u128| #[trigger]
        committed.contains_key(key) ==> exists|i: int|
            0 <= i < listing.len() && (#[trigger] listing[i]).0 == key
}

/// The committed occurrences as key, offset, timestamp and op, by increasing
/// key.
pub open spec fn sorted_entries(committed: Map<u128, Occurrence>) -> Seq<(u128, u64, u64, u64)> {
    choose|listing: Seq<(u128, u64, u64, u64)>| lists(committed, listing)
}

/// There is one listing of a map by increasing key.
pub proof fn lemma_listing_is_unique(
    committed: Map<u128, Occurrence>,
    left: Seq<(u128, u64, u64, u64)>,
    right: Seq<(u128, u64, u64, u64)>,
)
    requires
        lists(committed, left),
        lists(committed, right),
    ensures
        left == right,
    decreases left.len(),
{
    lemma_listings_share_keys(committed, left, right, 0);
    lemma_listings_share_keys(committed, right, left, 0);
    assert forall|i: int| 0 <= i < left.len() implies left[i] == right[i] by {
        assert(committed.contains_key(left[i].0));
        assert(committed.contains_key(right[i].0));
    }
    assert(left =~= right);
}

/// Two listings of a map agree on their keys as far as the first one goes.
proof fn lemma_listings_share_keys(
    committed: Map<u128, Occurrence>,
    left: Seq<(u128, u64, u64, u64)>,
    right: Seq<(u128, u64, u64, u64)>,
    from: int,
)
    requires
        lists(committed, left),
        lists(committed, right),
        0 <= from <= left.len(),
        from <= right.len(),
        forall|i: int| 0 <= i < from ==> (#[trigger] left[i]).0 == right[i].0,
    ensures
        left.len() <= right.len(),
        forall|i: int| 0 <= i < left.len() ==> (#[trigger] left[i]).0 == right[i].0,
    decreases left.len() - from,
{
    if from < left.len() {
        let key = left[from].0;
        assert(committed.contains_key(key));
        let j = choose|j: int| 0 <= j < right.len() && (#[trigger] right[j]).0 == key;
        if j < from {
            assert(left[j].0 == right[j].0);
        }
        let other = right[from].0;
        assert(committed.contains_key(other));
        let m = choose|m: int| 0 <= m < left.len() && (#[trigger] left[m]).0 == other;
        if m < from {
            assert(left[m].0 == right[m].0);
        }
        assert(left[from].0 == right[from].0);
        lemma_listings_share_keys(committed, left, right, from + 1);
    }
}

/// What a fingerprint is taken over: of each occurrence its key, offset and
/// timestamp, in little-endian bytes.
pub open spec fn fingerprint_material(listing: Seq<(u128, u64, u64, u64)>) -> Seq<u8>
    decreases listing.len(),
{
    if listing.len() == 0 {
        Seq::empty()
    } else {
        let (key, offset, timestamp, op) = listing.last();
        fingerprint_material(listing.drop_last()) + wire::le_bytes(key as nat, 16)
            + wire::le_bytes(offset as nat, 8) + wire::le_bytes(timestamp as nat, 8)
    }
}

/// What a dedup index holds.
#[verifier::ext_equal]
pub struct IndexView {
    /// Committed occurrences by key.
    pub committed: Map<u128, Occurrence>,
    /// The keys of `committed`, the one recorded longest ago first.
    pub order: Seq<u128>,
    /// Appended, uncommitted occurrences by key.
    pub pending: Map<u128, Occurrence>,
    /// The newest committed timestamp folded in.
    pub newest_timestamp: u64,
    /// The most committed keys the index may hold.
    pub entries_max: nat,
    pub counters: DedupCounters,
    /// How many recordings have been numbered so far.
    pub recordings: nat,
}

impl IndexView {
    /// An index that holds nothing.
    pub open spec fn empty(entries_max: nat) -> IndexView {
        IndexView {
            committed: Map::empty(),
            order: Seq::empty(),
            pending: Map::empty(),
            newest_timestamp: 0,
            entries_max: if entries_max == 0 {
                1
            } else {
                entries_max
            },
            counters: DedupCounters::zero(),
            recordings: 0,
        }
    }

    /// `order` lists exactly the committed keys, each once.
    pub open spec fn ordered(self) -> bool {
        &&& self.order.no_duplicates()
        &&& forall|key: u128| #[trigger]
            self.committed.contains_key(key) <==> self.order.contains(key)
    }

    /// The invariant every operation keeps.
    pub open spec fn valid(self) -> bool {
        &&& self.ordered()
        &&& self.order.len() <= self.entries_max
        &&& self.entries_max >= 1
    }

    /// How `key` matches as of `now`.
    pub open spec fn lookup(
        self,
        key: u128,
        now: u64,
        window_micros: u64,
        commit_op: u64,
    ) -> Option<DedupMatch> {
        if self.committed.contains_key(key) && inside_window(
            self.committed[key].timestamp,
            window_micros,
            now,
        ) {
            Some(DedupMatch::Committed)
        } else if self.pending.contains_key(key) && self.pending[key].op > commit_op {
            Some(DedupMatch::Uncommitted)
        } else {
            None
        }
    }

    /// The oldest committed key forgotten.
    pub open spec fn drop_oldest(self) -> IndexView {
        IndexView {
            committed: self.committed.remove(self.order[0]),
            order: self.order.drop_first(),
            ..self
        }
    }

    /// The oldest committed keys forgotten, up to the first one appended at
    /// `cutoff` or later.
    pub open spec fn drop_expired(self, cutoff: u64) -> IndexView
        decreases self.order.len(),
    {
        if self.order.len() > 0 && self.committed[self.order[0]].timestamp < cutoff {
            self.drop_oldest().drop_expired(cutoff)
        } else {
            self
        }
    }

    /// The oldest committed key forgotten to get down to the cap; it is counted
    /// when it was appended at `cutoff` or later.
    pub open spec fn drop_one_excess(self, cutoff: u64) -> IndexView {
        IndexView {
            counters: DedupCounters {
                evicted_live: if self.committed[self.order[0]].timestamp >= cutoff {
                    capped_sum(self.counters.evicted_live, 1)
                } else {
                    self.counters.evicted_live
                },
                ..self.counters
            },
            ..self.drop_oldest()
        }
    }

    /// The oldest committed keys forgotten until no more than `entries_max`
    /// are left; each one appended at `cutoff` or later is counted.
    pub open spec fn drop_excess(self, cutoff: u64) -> IndexView
        decreases self.order.len(),
    {
        if self.order.len() > 0 && self.order.len() > self.entries_max {
            self.drop_one_excess(cutoff).drop_excess(cutoff)
        } else {
            self
        }
    }

    /// The timestamp below which a committed occurrence has left the window,
    /// measured against the newest committed timestamp.
    pub open spec fn cutoff(self, window_micros: u64) -> u64 {
        floored_difference(self.newest_timestamp, window_micros)
    }

    /// What is left after eviction: by age first, then by the entry cap.
    pub open spec fn evict(self, window_micros: u64) -> IndexView {
        let cutoff = self.cutoff(window_micros);
        self.drop_expired(cutoff).drop_excess(cutoff)
    }

    /// Another cap on the committed keys, and what is left under it.
    pub open spec fn set_entries_max(self, entries_max: nat, window_micros: u64) -> IndexView {
        IndexView {
            entries_max: if entries_max == 0 {
                1
            } else {
                entries_max
            },
            ..self
        }.evict(window_micros)
    }

    /// Whether `op` already appended the pending occurrence of `key`.
    pub open spec fn pending_by(self, key: u128, op: u64) -> bool {
        self.pending.contains_key(key) && self.pending[key].op == op
    }

    /// An appended, uncommitted occurrence noted.
    pub open spec fn record_pending(
        self,
        key: u128,
        offset: u64,
        timestamp: u64,
        op: u64,
    ) -> IndexView {
        IndexView {
            pending: self.pending.insert(key, Occurrence { offset, timestamp, op }),
            recordings: if self.pending_by(key, op) {
                self.recordings
            } else {
                self.recordings + 1
            },
            ..self
        }
    }

    /// Whether the committed occurrence of `key` is the one at `offset`.
    pub open spec fn committed_at(self, key: u128, offset: u64) -> bool {
        self.committed.contains_key(key) && self.committed[key].offset == offset
    }

    /// A committed occurrence put in the newest place, before eviction.
    pub open spec fn with_newest(self, key: u128, occurrence: Occurrence) -> IndexView {
        IndexView {
            newest_timestamp: larger(self.newest_timestamp, occurrence.timestamp),
            committed: self.committed.insert(key, occurrence),
            order: without(self.order, key).push(key),
            recordings: self.recordings + 1,
            ..self
        }
    }

    /// A committed occurrence indexed. One that is indexed already keeps its
    /// place and timestamp and at most learns its op.
    pub open spec fn record_committed(
        self,
        key: u128,
        offset: u64,
        timestamp: u64,
        op: u64,
        window_micros: u64,
    ) -> IndexView {
        let newest = larger(self.newest_timestamp, timestamp);
        if self.committed_at(key, offset) {
            let known = self.committed[key];
            IndexView {
                newest_timestamp: newest,
                committed: if known.op == REBUILT_OP {
                    self.committed.insert(key, Occurrence { op, ..known })
                } else {
                    self.committed
                },
                ..self
            }
        } else {
            self.with_newest(key, Occurrence { offset, timestamp, op }).evict(window_micros)
        }
    }

    /// Every pending occurrence appended by `op` or earlier forgotten.
    pub open spec fn sweep_committed_through(self, op: u64) -> IndexView {
        IndexView {
            pending: self.pending.restrict(
                Set::new(|key: u128| self.pending.contains_key(key) && self.pending[key].op > op),
            ),
            ..self
        }
    }

    /// Every pending occurrence appended by `from_op` or later forgotten.
    pub open spec fn truncate_from_op(self, from_op: u64) -> IndexView {
        IndexView {
            pending: self.pending.restrict(
                Set::new(
                    |key: u128| self.pending.contains_key(key) && self.pending[key].op < from_op,
                ),
            ),
            ..self
        }
    }

    /// Both halves and the eviction reference forgotten. The cap, the
    /// counters and the numbering stay.
    pub open spec fn clear(self) -> IndexView {
        IndexView {
            committed: Map::empty(),
            order: Seq::empty(),
            pending: Map::empty(),
            newest_timestamp: 0,
            ..self
        }
    }

    /// What dropping by age leaves alone.
    pub proof fn lemma_drop_expired_frame(self, cutoff: u64)
        ensures
            ({
                let left = self.drop_expired(cutoff);
                left == (IndexView { committed: left.committed, order: left.order, ..self })
            }),
        decreases self.order.len(),
    {
        if self.order.len() > 0 && self.committed[self.order[0]].timestamp < cutoff {
            self.drop_oldest().lemma_drop_expired_frame(cutoff);
        }
    }

    /// What dropping to the cap leaves alone.
    pub proof fn lemma_drop_excess_frame(self, cutoff: u64)
        ensures
            ({
                let left = self.drop_excess(cutoff);
                left == (IndexView {
                    committed: left.committed,
                    order: left.order,
                    counters: DedupCounters {
                        evicted_live: left.counters.evicted_live,
                        ..self.counters
                    },
                    ..self
                })
            }),
        decreases self.order.len(),
    {
        if self.order.len() > 0 && self.order.len() > self.entries_max {
            self.drop_one_excess(cutoff).lemma_drop_excess_frame(cutoff);
        }
    }

    /// What eviction leaves alone: everything but the committed half and the
    /// count of live evictions.
    pub proof fn lemma_evict_frame(self, window_micros: u64)
        ensures
            ({
                let left = self.evict(window_micros);
                left == (IndexView {
                    committed: left.committed,
                    order: left.order,
                    counters: DedupCounters {
                        evicted_live: left.counters.evicted_live,
                        ..self.counters
                    },
                    ..self
                })
            }),
    {
        let cutoff = self.cutoff(window_micros);
        self.lemma_drop_expired_frame(cutoff);
        self.drop_expired(cutoff).lemma_drop_excess_frame(cutoff);
    }

    /// Indexing an occurrence numbers at most one recording.
    pub proof fn lemma_record_committed_numbers(
        self,
        key: u128,
        offset: u64,
        timestamp: u64,
        op: u64,
        window_micros: u64,
    )
        ensures
            self.record_committed(key, offset, timestamp, op, window_micros).recordings
                == self.recordings + if self.committed_at(key, offset) {
                0int
            } else {
                1int
            },
    {
        self.with_newest(key, Occurrence { offset, timestamp, op }).lemma_evict_frame(
            window_micros,
        );
    }

    /// Forgetting the oldest key keeps the order in step with the entries.
    pub proof fn lemma_drop_oldest(self)
        requires
            self.ordered(),
            self.order.len() > 0,
        ensures
            self.drop_oldest().ordered(),
    {
        let left = self.drop_oldest();
        let oldest = self.order[0];
        assert forall|key: u128| #[trigger]
            left.committed.contains_key(key) <==> left.order.contains(key) by {
            if left.order.contains(key) {
                let i = choose|i: int| 0 <= i < left.order.len() && left.order[i] == key;
                assert(self.order[i + 1] == key);
                assert(self.order.contains(key));
            }
            if left.committed.contains_key(key) {
                assert(self.order.contains(key));
                let i = choose|i: int| 0 <= i < self.order.len() && self.order[i] == key;
                assert(left.order[i - 1] == key);
            }
        }
        assert forall|i: int, j: int|
            0 <= i < left.order.len() && 0 <= j < left.order.len() && i
                != j implies left.order[i] != left.order[j] by {
            assert(self.order[i + 1] != self.order[j + 1]);
        }
    }

    /// Dropping by age keeps the order in step with the entries.
    pub proof fn lemma_drop_expired(self, cutoff: u64)
        requires
            self.ordered(),
        ensures
            self.drop_expired(cutoff).ordered(),
        decreases self.order.len(),
    {
        if self.order.len() > 0 && self.committed[self.order[0]].timestamp < cutoff {
            self.lemma_drop_oldest();
            self.drop_oldest().lemma_drop_expired(cutoff);
        }
    }

    /// Dropping to the cap keeps the order in step with the entries and gets
    /// there.
    pub proof fn lemma_drop_excess(self, cutoff: u64)
        requires
            self.ordered(),
            self.entries_max >= 1,
        ensures
            self.drop_excess(cutoff).valid(),
        decreases self.order.len(),
    {
        if self.order.len() > self.entries_max {
            self.lemma_drop_oldest();
            self.drop_one_excess(cutoff).lemma_drop_excess(cutoff);
        }
    }

    /// Eviction leaves a valid index.
    pub proof fn lemma_evict(self, window_micros: u64)
        requires
            self.ordered(),
            self.entries_max >= 1,
        ensures
            self.evict(window_micros).valid(),
    {
        let cutoff = self.cutoff(window_micros);
        self.lemma_drop_expired(cutoff);
        self.lemma_drop_expired_frame(cutoff);
        self.drop_expired(cutoff).lemma_drop_excess(cutoff);
    }

    /// Moving a key to the newest place keeps the order in step with the
    /// entries.
    pub proof fn lemma_with_newest(self, key: u128, occurrence: Occurrence)
        requires
            self.ordered(),
        ensures
            self.with_newest(key, occurrence).ordered(),
    {
        let kept = without(self.order, key);
        let order = kept.push(key);
        let committed = self.committed.insert(key, occurrence);
        assert forall|other: u128| #[trigger]
            kept.contains(other) <==> self.order.contains(other) && other != key by {
            lemma_without_contains(self.order, key, other);
        }
        lemma_without_keeps_distinct(self.order, key);
        assert forall|other: u128| #[trigger]
            committed.contains_key(other) <==> order.contains(other) by {
            if kept.contains(other) {
                let i = choose|i: int| 0 <= i < kept.len() && kept[i] == other;
                assert(order[i] == other);
            }
            assert(order[kept.len() as int] == key);
            if order.contains(other) && other != key {
                let i = choose|i: int| 0 <= i < order.len() && order[i] == other;
                assert(kept[i] == other);
            }
        }
    }

    /// Indexing an occurrence keeps the index valid.
    pub proof fn lemma_record_committed_valid(
        self,
        key: u128,
        offset: u64,
        timestamp: u64,
        op: u64,
        window_micros: u64,
    )
        requires
            self.valid(),
        ensures
            self.record_committed(key, offset, timestamp, op, window_micros).valid(),
    {
        let occurrence = Occurrence { offset, timestamp, op };
        self.lemma_with_newest(key, occurrence);
        if self.committed_at(key, offset) {
            let left = self.record_committed(key, offset, timestamp, op, window_micros);
            assert forall|other: u128| #[trigger]
                left.committed.contains_key(other) <==> left.order.contains(other) by {
                assert(self.committed.contains_key(other) <==> self.order.contains(other));
            }
        } else {
            self.with_newest(key, occurrence).lemma_evict(window_micros);
        }
    }
}

} // verus!
