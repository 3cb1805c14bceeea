//! A partition's log, its index, and what holds of both over a run.
//!
//! [`PartitionState`] is a partition as its primary sees it: the committed
//! messages, the appended ones that have not committed yet, the index and the
//! commit point. The index is kept by the operations of this crate alone, so
//! the properties below hold of every run made of admissions, commits,
//! truncations and rebuilds.

use vstd::prelude::*;

use crate::batch;
use crate::batch::{Batch, Screening, StampedKey};
use crate::index_model;
use crate::index_model::{DedupMatch, IndexView};
use crate::key;
use crate::laws;
use crate::laws::LogRecord;

verus! {

/// A partition as its primary sees it.
pub struct PartitionState {
    /// The keyed messages that have committed.
    pub committed: Seq<LogRecord>,
    /// The keyed messages that are appended and not committed yet.
    pub appended: Seq<LogRecord>,
    pub index: IndexView,
    /// The op up to which everything has committed.
    pub commit_op: u64,
}

/// No key is in `log` twice within the window: a message with the key of an
/// earlier one comes only once the earlier one has left the window.
pub open spec fn unique_within_window(log: Seq<LogRecord>, window_micros: u64) -> bool {
    forall|i: int, j: int|
        0 <= i < j < log.len() && (#[trigger] log[i]).key == (#[trigger] log[j]).key
            ==> log[i].timestamp + window_micros <= log[j].timestamp || log[j].timestamp
            == u64::MAX
}

/// `keys` as messages appended by `op`.
pub open spec fn records(keys: Seq<StampedKey>, op: u64) -> Seq<LogRecord> {
    keys.map_values(
        |key: StampedKey|
            LogRecord { key: key.key, offset: key.offset, timestamp: key.timestamp, op },
    )
}

/// The keys of the messages that have one.
pub open spec fn keyed(keys: Seq<Option<u128>>) -> Seq<u128>
    decreases keys.len(),
{
    if keys.len() == 0 {
        Seq::empty()
    } else {
        match keys.last() {
            Some(key) => keyed(keys.drop_last()).push(key),
            None => keyed(keys.drop_last()),
        }
    }
}

impl PartitionState {
    /// The whole log.
    pub open spec fn log(self) -> Seq<LogRecord> {
        self.committed + self.appended
    }

    /// The index that starts as `start` holds the committed messages, ops
    /// aside.
    pub open spec fn indexed(self, start: IndexView, window_micros: u64) -> bool {
        laws::committed_half(laws::forget_ops(self.index)) == laws::committed_half(
            laws::replay(start, laws::as_stored(self.committed), window_micros),
        )
    }

    /// Every appended message is pending in the index under its op, and no two
    /// of them share a key.
    pub open spec fn pending_covers_appended(self) -> bool {
        &&& forall|i: int|
            0 <= i < self.appended.len() ==> self.index.pending_by(
                (#[trigger] self.appended[i]).key,
                self.appended[i].op,
            )
        &&& forall|i: int, j: int|
            0 <= i < j < self.appended.len() ==> (#[trigger] self.appended[i]).key != (
            #[trigger] self.appended[j]).key
    }

    /// Appended messages carry ops above the commit point, in order.
    pub open spec fn ops_in_order(self) -> bool {
        &&& forall|i: int| 0 <= i < self.appended.len() ==> (#[trigger] self.appended[i]).op
            > self.commit_op
        &&& forall|i: int, j: int|
            0 <= i < j < self.appended.len() ==> (#[trigger] self.appended[i]).op <= (
            #[trigger] self.appended[j]).op
    }

    /// What every step of a run keeps, as long as the cap evicts nothing live.
    pub open spec fn sound(self, start: IndexView, window_micros: u64) -> bool {
        &&& laws::nothing_committed(start)
        &&& self.index.valid()
        &&& laws::in_log_order(self.log())
        &&& laws::never_saturated(start, laws::as_stored(self.committed), window_micros)
        &&& self.indexed(start, window_micros)
        &&& self.pending_covers_appended()
        &&& self.ops_in_order()
        &&& unique_within_window(self.log(), window_micros)
    }

    /// What a request screened at `now` is decided against.
    pub open spec fn screening(self, now: u64, window_micros: u64) -> Screening {
        Screening { index: self.index, now, window_micros, commit_op: self.commit_op }
    }

    /// The partition after `op` appended messages with `keys`.
    pub open spec fn after_admission(self, keys: Seq<StampedKey>, op: u64) -> PartitionState {
        PartitionState {
            appended: self.appended + records(keys, op),
            index: batch::fold_pending(self.index, keys, op),
            ..self
        }
    }

    /// The partition after `op` has committed, which appended the oldest of the
    /// appended messages: those with `keys`.
    pub open spec fn after_commit(
        self,
        keys: Seq<StampedKey>,
        op: u64,
        window_micros: u64,
    ) -> PartitionState {
        PartitionState {
            committed: self.committed + records(keys, op),
            appended: self.appended.skip(keys.len() as int),
            index: batch::fold_committed(
                self.index,
                keys,
                op,
                window_micros,
            ).sweep_committed_through(op),
            commit_op: op,
        }
    }

    /// The partition after a view change took away everything that `from_op`
    /// and later ops had appended, `kept` messages being left.
    pub open spec fn after_truncation(self, kept: nat, from_op: u64) -> PartitionState {
        PartitionState {
            appended: self.appended.take(kept as int),
            index: self.index.truncate_from_op(from_op),
            ..self
        }
    }

    /// The partition after its index was rebuilt from committed storage, into
    /// an index that starts as `fresh`, and the appended messages were
    /// replayed into it.
    pub open spec fn after_rebuild(self, fresh: IndexView, window_micros: u64) -> PartitionState {
        PartitionState {
            index: replay_pending(
                laws::replay(fresh, laws::as_stored(self.committed), window_micros),
                self.appended,
            ),
            ..self
        }
    }
}

/// Appended messages noted as pending, in order.
pub open spec fn replay_pending(index: IndexView, appended: Seq<LogRecord>) -> IndexView
    decreases appended.len(),
{
    if appended.len() == 0 {
        index
    } else {
        let last = appended.last();
        replay_pending(index, appended.drop_last()).record_pending(
            last.key,
            last.offset,
            last.timestamp,
            last.op,
        )
    }
}

// ---------------------------------------------------------------------------
// Folding
// ---------------------------------------------------------------------------

proof fn lemma_replay_append(
    index: IndexView,
    left: Seq<LogRecord>,
    right: Seq<LogRecord>,
    window_micros: u64,
)
    ensures
        laws::replay(index, left + right, window_micros) == laws::replay(
            laws::replay(index, left, window_micros),
            right,
            window_micros,
        ),
    decreases right.len(),
{
    if right.len() == 0 {
        assert(left + right =~= left);
    } else {
        lemma_replay_append(index, left, right.drop_last(), window_micros);
        assert((left + right).drop_last() =~= left + right.drop_last());
        assert((left + right).last() == right.last());
    }
}

proof fn lemma_fold_committed_is_replay(
    index: IndexView,
    keys: Seq<StampedKey>,
    op: u64,
    window_micros: u64,
)
    ensures
        batch::fold_committed(index, keys, op, window_micros) == laws::replay(
            index,
            records(keys, op),
            window_micros,
        ),
    decreases keys.len(),
{
    if keys.len() > 0 {
        lemma_fold_committed_is_replay(index, keys.drop_last(), op, window_micros);
        assert(records(keys, op).drop_last() =~= records(keys.drop_last(), op));
    }
}

proof fn lemma_fold_pending_is_replay(index: IndexView, keys: Seq<StampedKey>, op: u64)
    ensures
        batch::fold_pending(index, keys, op) == replay_pending(index, records(keys, op)),
    decreases keys.len(),
{
    if keys.len() > 0 {
        lemma_fold_pending_is_replay(index, keys.drop_last(), op);
        assert(records(keys, op).drop_last() =~= records(keys.drop_last(), op));
    }
}

/// Noting distinct pending messages leaves each of them pending under its op,
/// every other pending key as it was, and the committed half alone.
proof fn lemma_replay_pending(index: IndexView, appended: Seq<LogRecord>)
    requires
        forall|i: int, j: int|
            0 <= i < j < appended.len() ==> (#[trigger] appended[i]).key != (
            #[trigger] appended[j]).key,
    ensures
        ({
            let noted = replay_pending(index, appended);
            &&& noted == (IndexView {
                pending: noted.pending,
                recordings: noted.recordings,
                ..index
            })
            &&& forall|i: int|
                0 <= i < appended.len() ==> noted.pending_by(
                    (#[trigger] appended[i]).key,
                    appended[i].op,
                )
            &&& forall|key: u128, op: u64|
                (forall|i: int| 0 <= i < appended.len() ==> (#[trigger] appended[i]).key != key)
                    ==> (#[trigger] noted.pending_by(key, op) <==> index.pending_by(key, op))
        }),
    decreases appended.len(),
{
    if appended.len() > 0 {
        let front = appended.drop_last();
        let last = appended.last();
        assert forall|i: int, j: int| 0 <= i < j < front.len() implies (#[trigger] front[i]).key
            != (#[trigger] front[j]).key by {
            assert(appended[i] == front[i] && appended[j] == front[j]);
        }
        lemma_replay_pending(index, front);
        let before = replay_pending(index, front);
        let noted = replay_pending(index, appended);
        assert forall|i: int| 0 <= i < appended.len() implies noted.pending_by(
            (#[trigger] appended[i]).key,
            appended[i].op,
        ) by {
            if i < front.len() {
                assert(front[i] == appended[i]);
                assert(appended[i].key != appended[appended.len() - 1].key);
                assert(before.pending_by(front[i].key, front[i].op));
            }
        }
        assert forall|key: u128, op: u64|
            (forall|i: int| 0 <= i < appended.len() ==> (#[trigger] appended[i]).key
                != key) implies (#[trigger] noted.pending_by(key, op) <==> index.pending_by(
            key,
            op,
        )) by {
            assert(appended[appended.len() - 1].key != key);
            assert forall|i: int| 0 <= i < front.len() implies (#[trigger] front[i]).key
                != key by {
                assert(appended[i] == front[i]);
            }
            assert(before.pending_by(key, op) <==> index.pending_by(key, op));
        }
    }
}

// ---------------------------------------------------------------------------
// Screening
// ---------------------------------------------------------------------------

proof fn lemma_stored_order(log: Seq<LogRecord>)
    requires
        laws::in_log_order(log),
    ensures
        laws::in_log_order(laws::as_stored(log)),
{
    let stored = laws::as_stored(log);
    assert forall|i: int, j: int| 0 <= i < j < stored.len() implies {
        &&& (#[trigger] stored[i]).offset < (#[trigger] stored[j]).offset
        &&& stored[i].timestamp <= stored[j].timestamp
    } by {
        assert(log[i].offset < log[j].offset);
    }
}

/// The front of a log in order is in order.
proof fn lemma_front_in_order(front: Seq<LogRecord>, back: Seq<LogRecord>)
    requires
        laws::in_log_order(front + back),
    ensures
        laws::in_log_order(front),
{
    assert forall|i: int, j: int| 0 <= i < j < front.len() implies {
        &&& (#[trigger] front[i]).offset < (#[trigger] front[j]).offset
        &&& front[i].timestamp <= front[j].timestamp
    } by {
        assert((front + back)[i] == front[i] && (front + back)[j] == front[j]);
    }
}

/// A key that does not match as committed has left the window: every committed
/// message with it ends its window by the time of the screening, or by the
/// newest committed timestamp.
pub proof fn lemma_unmatched_key_has_left_the_window(
    state: PartitionState,
    start: IndexView,
    key: u128,
    now: u64,
    window_micros: u64,
    i: int,
)
    requires
        state.sound(start, window_micros),
        state.screening(now, window_micros).lookup(key) != Some(DedupMatch::Committed),
        0 <= i < state.committed.len(),
        state.committed[i].key == key,
    ensures
        index_model::capped_sum(state.committed[i].timestamp, window_micros) <= now
            || index_model::capped_sum(state.committed[i].timestamp, window_micros)
            <= laws::newest_of(state.committed),
        ({
            let newest = state.committed[state.committed.len() - 1].timestamp;
            ||| state.committed[i].timestamp + window_micros <= now
            ||| state.committed[i].timestamp + window_micros <= newest
            ||| now == u64::MAX
            ||| newest == u64::MAX
        }),
{
    let stored = laws::as_stored(state.committed);
    let held = laws::replay(start, stored, window_micros);
    lemma_front_in_order(state.committed, state.appended);
    lemma_stored_order(state.committed);
    laws::lemma_index_holds_the_window(start, stored, window_micros);
    laws::lemma_latest(stored, key);
    assert(stored[i].key == key);
    let last = laws::latest(stored, key)->0;
    assert(stored[i].timestamp <= last.timestamp);
    let bare = laws::forget_ops(state.index);
    assert(bare.committed == held.committed);
    assert(bare.committed.contains_key(key) == state.index.committed.contains_key(key));
    if held.committed.contains_key(key) {
        assert(bare.committed[key].timestamp == state.index.committed[key].timestamp);
        assert(held.committed[key] == last.occurrence());
    }
}

/// A key that matches as committed is in the committed log inside the window.
pub proof fn lemma_matched_key_is_committed(
    state: PartitionState,
    start: IndexView,
    key: u128,
    now: u64,
    window_micros: u64,
)
    requires
        state.sound(start, window_micros),
        state.screening(now, window_micros).lookup(key) == Some(DedupMatch::Committed),
    ensures
        now < u64::MAX,
        exists|i: int|
            0 <= i < state.committed.len() && (#[trigger] state.committed[i]).key == key
                && state.committed[i].timestamp + window_micros > now,
{
    let stored = laws::as_stored(state.committed);
    let held = laws::replay(start, stored, window_micros);
    lemma_front_in_order(state.committed, state.appended);
    lemma_stored_order(state.committed);
    laws::lemma_index_holds_the_window(start, stored, window_micros);
    laws::lemma_latest(stored, key);
    let bare = laws::forget_ops(state.index);
    assert(bare.committed == held.committed);
    assert(bare.committed.contains_key(key));
    assert(bare.committed[key].timestamp == state.index.committed[key].timestamp);
    let last = laws::latest(stored, key)->0;
    assert(held.committed[key] == last.occurrence());
    let i = choose|i: int| 0 <= i < stored.len() && stored[i] == last;
    assert(state.committed[i].key == key);
}

/// The first message of a batch with a key is kept unless the key is
/// committed inside the window.
pub proof fn lemma_first_of_a_key_is_kept(
    screening: Screening,
    keys: Seq<Option<u128>>,
    key: u128,
    i: int,
)
    requires
        0 <= i < keys.len(),
        keys[i] == Some(key),
        screening.lookup(key) != Some(DedupMatch::Committed),
    ensures
        exists|j: int|
            0 <= j <= i && #[trigger] keys[j] == Some(key) && screening.keeps(keys, j),
    decreases i,
{
    if exists|j: int| 0 <= j < i && #[trigger] keys[j] == Some(key) {
        let j = choose|j: int| 0 <= j < i && #[trigger] keys[j] == Some(key);
        lemma_first_of_a_key_is_kept(screening, keys, key, j);
    } else {
        assert(screening.keeps(keys, i));
    }
}

/// No message is lost: one that is dropped has its key in the committed log
/// inside the window, or on an earlier message of the batch that is kept.
pub proof fn lemma_no_message_is_lost(
    state: PartitionState,
    start: IndexView,
    keys: Seq<Option<u128>>,
    now: u64,
    window_micros: u64,
    i: int,
)
    requires
        state.sound(start, window_micros),
        0 <= i < keys.len(),
        !state.screening(now, window_micros).keeps(keys, i),
    ensures
        keys[i] is Some,
        ({
            let key = keys[i]->0;
            ||| exists|j: int|
                0 <= j < state.committed.len() && (#[trigger] state.committed[j]).key == key
                    && state.committed[j].timestamp > now - window_micros && now < u64::MAX
            ||| exists|j: int|
                0 <= j < i && #[trigger] keys[j] == Some(key) && state.screening(
                    now,
                    window_micros,
                ).keeps(keys, j)
        }),
{
    let screening = state.screening(now, window_micros);
    let key = keys[i]->0;
    if screening.lookup(key) == Some(DedupMatch::Committed) {
        lemma_matched_key_is_committed(state, start, key, now, window_micros);
    } else {
        let j = choose|j: int| 0 <= j < i && #[trigger] keys[j] == Some(key);
        lemma_first_of_a_key_is_kept(screening, keys, key, j);
        let m = choose|m: int|
            0 <= m <= j && #[trigger] keys[m] == Some(key) && screening.keeps(keys, m);
        assert(0 <= m < i);
    }
}

/// Each kept key comes from a kept message, and no two kept messages share a
/// key.
proof fn lemma_kept_keys(screening: Screening, keys: Seq<Option<u128>>, n: nat)
    requires
        n <= keys.len(),
    ensures
        ({
            let kept = keyed(screening.kept_keys(keys, n));
            &&& forall|i: int|
                0 <= i < kept.len() ==> exists|m: int|
                    0 <= m < n && #[trigger] keys[m] == Some(#[trigger] kept[i])
                        && screening.keeps(keys, m)
            &&& forall|i: int, j: int| 0 <= i < j < kept.len() ==> kept[i] != kept[j]
        }),
    decreases n,
{
    if n > 0 {
        let before = (n - 1) as nat;
        lemma_kept_keys(screening, keys, before);
        let kept_before = screening.kept_keys(keys, before);
        let old_kept = keyed(kept_before);
        if screening.keeps(keys, n - 1) {
            let longer = kept_before.push(keys[n - 1]);
            assert(longer.drop_last() =~= kept_before);
            assert(screening.kept_keys(keys, n) == longer);
            assert(longer.last() == keys[n - 1]);
            match keys[n - 1] {
                Some(key) => {
                    let kept = keyed(longer);
                    assert(kept == old_kept.push(key));
                    assert forall|i: int| 0 <= i < kept.len() implies exists|m: int|
                        0 <= m < n && #[trigger] keys[m] == Some(#[trigger] kept[i])
                            && screening.keeps(keys, m) by {
                        if i < old_kept.len() {
                            assert(kept[i] == old_kept[i]);
                            let m = choose|m: int|
                                0 <= m < before && #[trigger] keys[m] == Some(old_kept[i])
                                    && screening.keeps(keys, m);
                            assert(keys[m] == Some(kept[i]));
                        } else {
                            assert(keys[n - 1] == Some(kept[i]));
                        }
                    }
                    assert forall|i: int, j: int| 0 <= i < j < kept.len() implies kept[i]
                        != kept[j] by {
                        assert(kept[i] == old_kept[i]);
                        if j == old_kept.len() {
                            let m = choose|m: int|
                                0 <= m < before && #[trigger] keys[m] == Some(old_kept[i])
                                    && screening.keeps(keys, m);
                            assert(keys[m] != Some(key));
                        }
                    }
                },
                None => {
                    assert(keyed(longer) == old_kept);
                },
            }
        }
    }
}

// ---------------------------------------------------------------------------
// Steps of a run
// ---------------------------------------------------------------------------

/// Whether `keys` are those of the messages kept of a request screened at
/// `now`, stamped with one timestamp no earlier than `now` and than the rest
/// of the log, at growing offsets past it.
pub open spec fn stamps_kept_messages(
    state: PartitionState,
    request: Seq<Option<u128>>,
    now: u64,
    window_micros: u64,
    timestamp: u64,
    keys: Seq<StampedKey>,
) -> bool {
    &&& keys.map_values(|key: StampedKey| key.key) == keyed(
        state.screening(now, window_micros).kept_keys(request, request.len()),
    )
    &&& forall|i: int| 0 <= i < keys.len() ==> (#[trigger] keys[i]).timestamp == timestamp
    &&& forall|i: int, j: int|
        0 <= i < j < keys.len() ==> (#[trigger] keys[i]).offset < (#[trigger] keys[j]).offset
    &&& forall|i: int, j: int|
        0 <= i < state.log().len() && 0 <= j < keys.len() ==> (#[trigger] state.log()[i]).offset
            < (#[trigger] keys[j]).offset
    &&& now <= timestamp
    &&& laws::newest_of(state.log()) <= timestamp
}

/// No key is appended twice within the window: what the primary admits of a
/// request, once it has deferred every request that matches an uncommitted
/// message, leaves a log in which no key comes twice within the window.
#[verifier::rlimit(30)]
pub proof fn lemma_admission_keeps_keys_unique(
    state: PartitionState,
    start: IndexView,
    request: Seq<Option<u128>>,
    now: u64,
    window_micros: u64,
    timestamp: u64,
    keys: Seq<StampedKey>,
    op: u64,
)
    requires
        state.sound(start, window_micros),
        !state.screening(now, window_micros).matches_uncommitted(request),
        stamps_kept_messages(state, request, now, window_micros, timestamp, keys),
        op > state.commit_op,
        forall|i: int| 0 <= i < state.appended.len() ==> (#[trigger] state.appended[i]).op <= op,
    ensures
        state.after_admission(keys, op).sound(start, window_micros),
{
    let after = state.after_admission(keys, op);
    let fresh = records(keys, op);
    let log = state.log();
    let screening = state.screening(now, window_micros);
    let kept = keyed(screening.kept_keys(request, request.len()));
    lemma_kept_keys(screening, request, request.len());
    assert(after.log() =~= log + fresh);
    assert forall|i: int| 0 <= i < fresh.len() implies (#[trigger] fresh[i]).key == kept[i]
        && fresh[i].timestamp == timestamp && fresh[i].offset == keys[i].offset && screening.lookup(
        kept[i],
    ) is None by {
        assert(keys.map_values(|key: StampedKey| key.key)[i] == keys[i].key);
        let m = choose|m: int|
            0 <= m < request.len() && #[trigger] request[m] == Some(kept[i]) && screening.keeps(
                request,
                m,
            );
        assert(!screening.is_uncommitted(request[m]));
    }
    assert(kept.len() == fresh.len()) by {
        assert(keys.map_values(|key: StampedKey| key.key).len() == keys.len());
    }
    // No appended message shares a key with a fresh one.
    assert forall|i: int, j: int|
        0 <= i < state.appended.len() && 0 <= j < fresh.len() implies (
    #[trigger] state.appended[i]).key != (#[trigger] fresh[j]).key by {
        assert(state.index.pending_by(state.appended[i].key, state.appended[i].op));
        assert(screening.lookup(kept[j]) is None);
    }
    assert forall|i: int, j: int|
        0 <= i < j < after.log().len() && (#[trigger] after.log()[i]).key == (
        #[trigger] after.log()[j]).key implies after.log()[i].timestamp + window_micros
        <= after.log()[j].timestamp || after.log()[j].timestamp == u64::MAX by {
        if j < log.len() {
            assert(after.log()[i] == log[i] && after.log()[j] == log[j]);
        } else {
            let f = j - log.len();
            assert(after.log()[j] == fresh[f]);
            if i >= log.len() {
                let e = i - log.len();
                assert(after.log()[i] == fresh[e]);
                assert(kept[e] != kept[f]);
            } else if i >= state.committed.len() {
                let a = i - state.committed.len();
                assert(after.log()[i] == state.appended[a]);
                assert(state.appended[a].key != fresh[f].key);
            } else {
                assert(after.log()[i] == state.committed[i]);
                lemma_unmatched_key_has_left_the_window(
                    state,
                    start,
                    kept[f],
                    now,
                    window_micros,
                    i,
                );
                lemma_newest_of_front(state.committed, state.appended);
            }
        }
    }
    assert forall|i: int, j: int| 0 <= i < j < after.log().len() implies {
        &&& (#[trigger] after.log()[i]).offset < (#[trigger] after.log()[j]).offset
        &&& after.log()[i].timestamp <= after.log()[j].timestamp
    } by {
        if j < log.len() {
            assert(after.log()[i] == log[i] && after.log()[j] == log[j]);
        } else {
            let f = j - log.len();
            assert(after.log()[j] == fresh[f]);
            if i >= log.len() {
                let e = i - log.len();
                assert(after.log()[i] == fresh[e]);
                assert(keys[e].offset < keys[f].offset);
            } else {
                assert(after.log()[i] == log[i]);
                assert(log[i].offset < keys[f].offset);
                if i < log.len() - 1 {
                    assert(log[i].timestamp <= log[log.len() - 1].timestamp);
                }
            }
        }
    }
    assert forall|i: int, j: int| 0 <= i < j < fresh.len() implies (#[trigger] fresh[i]).key != (
    #[trigger] fresh[j]).key by {
        assert(kept[i] != kept[j]);
    }
    lemma_fold_pending_is_replay(state.index, keys, op);
    lemma_replay_pending(state.index, fresh);
    assert forall|i: int| 0 <= i < after.appended.len() implies after.index.pending_by(
        (#[trigger] after.appended[i]).key,
        after.appended[i].op,
    ) && after.appended[i].op > after.commit_op by {
        if i < state.appended.len() {
            assert(after.appended[i] == state.appended[i]);
            assert forall|j: int| 0 <= j < fresh.len() implies (#[trigger] fresh[j]).key
                != state.appended[i].key by {}
            assert(state.index.pending_by(state.appended[i].key, state.appended[i].op));
            assert(after.index.pending_by(state.appended[i].key, state.appended[i].op));
        } else {
            let f = i - state.appended.len();
            assert(after.appended[i] == fresh[f]);
        }
    }
    assert forall|i: int, j: int| 0 <= i < j < after.appended.len() implies (
    #[trigger] after.appended[i]).key != (#[trigger] after.appended[j]).key
        && after.appended[i].op <= after.appended[j].op by {
        if j < state.appended.len() {
            assert(after.appended[i] == state.appended[i]);
            assert(after.appended[j] == state.appended[j]);
        } else {
            let f = j - state.appended.len();
            assert(after.appended[j] == fresh[f]);
            if i < state.appended.len() {
                assert(after.appended[i] == state.appended[i]);
            } else {
                assert(after.appended[i] == fresh[i - state.appended.len()]);
            }
        }
    }
    assert(laws::forget_ops(after.index).committed == laws::forget_ops(state.index).committed);
}

proof fn lemma_newest_of_front(front: Seq<LogRecord>, back: Seq<LogRecord>)
    requires
        laws::in_log_order(front + back),
    ensures
        laws::newest_of(front) <= laws::newest_of(front + back),
{
    if front.len() > 0 {
        let all = front + back;
        assert(all[front.len() - 1] == front.last());
        if back.len() > 0 {
            assert(all[all.len() - 1] == all.last());
            assert(all[front.len() - 1].timestamp <= all[all.len() - 1].timestamp);
        } else {
            assert(all =~= front);
        }
    }
}

proof fn lemma_replay_leaves_pending(index: IndexView, log: Seq<LogRecord>, window_micros: u64)
    ensures
        laws::replay(index, log, window_micros).pending == index.pending,
    decreases log.len(),
{
    if log.len() > 0 {
        let last = log.last();
        lemma_replay_leaves_pending(index, log.drop_last(), window_micros);
        laws::lemma_committed_leaves_the_pending_half(
            laws::replay(index, log.drop_last(), window_micros),
            last.key,
            last.offset,
            last.timestamp,
            last.op,
            window_micros,
        );
    }
}

/// A new partition is sound, whatever its index still holds as pending.
pub proof fn lemma_new_partition_is_sound(start: IndexView, commit_op: u64, window_micros: u64)
    requires
        laws::nothing_committed(start),
    ensures
        (PartitionState {
            committed: Seq::empty(),
            appended: Seq::empty(),
            index: start,
            commit_op,
        }).sound(start, window_micros),
{
    let stored = laws::as_stored(Seq::<LogRecord>::empty());
    assert(stored =~= Seq::empty());
    assert(laws::forget_ops(start).committed =~= start.committed);
    assert forall|key: u128| #[trigger]
        start.committed.contains_key(key) <==> start.order.contains(key) by {}
}

/// A commit keeps the log sound: the messages of the op that commits are
/// indexed and swept, and the log is the same as before.
pub proof fn lemma_commit_keeps_the_partition_sound(
    state: PartitionState,
    start: IndexView,
    keys: Seq<StampedKey>,
    op: u64,
    window_micros: u64,
)
    requires
        state.sound(start, window_micros),
        keys.len() <= state.appended.len(),
        records(keys, op) == state.appended.take(keys.len() as int),
        forall|i: int|
            keys.len() <= i < state.appended.len() ==> (#[trigger] state.appended[i]).op > op,
        laws::never_saturated(
            start,
            laws::as_stored(state.committed + records(keys, op)),
            window_micros,
        ),
    ensures
        state.after_commit(keys, op, window_micros).sound(start, window_micros),
        state.after_commit(keys, op, window_micros).log() == state.log(),
{
    let after = state.after_commit(keys, op, window_micros);
    let fresh = records(keys, op);
    let n = keys.len() as int;
    let walked = laws::replay(state.index, fresh, window_micros);
    assert(after.log() =~= state.log()) by {
        assert(state.appended =~= state.appended.take(n) + state.appended.skip(n));
    }
    lemma_fold_committed_is_replay(state.index, keys, op, window_micros);
    laws::lemma_rebuild_matches_the_commit_walk(state.index, fresh, window_micros);
    lemma_replay_leaves_pending(state.index, fresh, window_micros);
    let stored = laws::as_stored(state.committed);
    laws::lemma_same_log_same_committed_half(
        laws::forget_ops(state.index),
        laws::replay(start, stored, window_micros),
        laws::as_stored(fresh),
        window_micros,
    );
    lemma_replay_append(start, stored, laws::as_stored(fresh), window_micros);
    assert(laws::as_stored(after.committed) =~= stored + laws::as_stored(fresh));
    assert(laws::committed_half(laws::forget_ops(after.index)) == laws::committed_half(
        laws::forget_ops(walked),
    ));
    assert forall|i: int| 0 <= i < after.appended.len() implies after.index.pending_by(
        (#[trigger] after.appended[i]).key,
        after.appended[i].op,
    ) && after.appended[i].op > op by {
        assert(after.appended[i] == state.appended[i + n]);
    }
    assert forall|i: int, j: int| 0 <= i < j < after.appended.len() implies (
    #[trigger] after.appended[i]).key != (#[trigger] after.appended[j]).key
        && after.appended[i].op <= after.appended[j].op by {
        assert(after.appended[i] == state.appended[i + n]);
        assert(after.appended[j] == state.appended[j + n]);
    }
    assert(after.index.valid()) by {
        assert(walked.valid());
        assert(after.index.committed == walked.committed);
        assert(after.index.order == walked.order);
    }
}

/// A truncation keeps the partition sound: the messages it takes away are no
/// longer pending, and the others still are.
pub proof fn lemma_truncation_keeps_the_partition_sound(
    state: PartitionState,
    start: IndexView,
    kept: nat,
    from_op: u64,
    window_micros: u64,
)
    requires
        state.sound(start, window_micros),
        kept <= state.appended.len(),
        forall|i: int| 0 <= i < kept ==> (#[trigger] state.appended[i]).op < from_op,
    ensures
        state.after_truncation(kept, from_op).sound(start, window_micros),
{
    let after = state.after_truncation(kept, from_op);
    assert forall|i: int| 0 <= i < after.log().len() implies #[trigger] after.log()[i]
        == state.log()[i] by {}
    assert forall|i: int, j: int| 0 <= i < j < after.log().len() implies {
        &&& (#[trigger] after.log()[i]).offset < (#[trigger] after.log()[j]).offset
        &&& after.log()[i].timestamp <= after.log()[j].timestamp
    } by {
        assert(state.log()[i].offset < state.log()[j].offset);
    }
    assert forall|i: int, j: int|
        0 <= i < j < after.log().len() && (#[trigger] after.log()[i]).key == (
        #[trigger] after.log()[j]).key implies after.log()[i].timestamp + window_micros
        <= after.log()[j].timestamp || after.log()[j].timestamp == u64::MAX by {
        assert(state.log()[i].key == state.log()[j].key);
    }
    assert forall|i: int| 0 <= i < after.appended.len() implies after.index.pending_by(
        (#[trigger] after.appended[i]).key,
        after.appended[i].op,
    ) && after.appended[i].op > after.commit_op by {
        assert(after.appended[i] == state.appended[i]);
    }
    assert forall|i: int, j: int| 0 <= i < j < after.appended.len() implies (
    #[trigger] after.appended[i]).key != (#[trigger] after.appended[j]).key
        && after.appended[i].op <= after.appended[j].op by {
        assert(after.appended[i] == state.appended[i]);
        assert(after.appended[j] == state.appended[j]);
    }
    assert(after.index.valid()) by {
        assert(after.index.committed == state.index.committed);
        assert(after.index.order == state.index.order);
    }
}

/// A rebuild keeps the partition sound: an index read back from committed
/// storage, which does not store ops, decides as the one that was lost.
pub proof fn lemma_rebuild_keeps_the_partition_sound(
    state: PartitionState,
    start: IndexView,
    fresh: IndexView,
    window_micros: u64,
)
    requires
        state.sound(start, window_micros),
        laws::nothing_committed(fresh),
        fresh.entries_max == start.entries_max,
    ensures
        state.after_rebuild(fresh, window_micros).sound(start, window_micros),
{
    let after = state.after_rebuild(fresh, window_micros);
    let stored = laws::as_stored(state.committed);
    let read_back = laws::replay(fresh, stored, window_micros);
    assert(fresh.valid()) by {
        assert forall|key: u128| #[trigger]
            fresh.committed.contains_key(key) <==> fresh.order.contains(key) by {}
    }
    laws::lemma_rebuild_matches_the_commit_walk(fresh, stored, window_micros);
    assert(laws::as_stored(stored) =~= stored);
    assert(laws::forget_ops(fresh).committed =~= fresh.committed);
    laws::lemma_same_log_same_committed_half(
        laws::forget_ops(fresh),
        start,
        stored,
        window_micros,
    );
    lemma_replay_pending(read_back, state.appended);
    assert(laws::committed_half(laws::forget_ops(after.index)) == laws::committed_half(
        laws::forget_ops(read_back),
    ));
    assert(after.log() == state.log());
    assert(after.index.valid()) by {
        assert(after.index.committed == read_back.committed);
        assert(after.index.order == read_back.order);
    }
}

/// A batch made of the kept messages is stamped as an admission wants it: its
/// keyed messages carry the keys of its messages in order, the timestamp of
/// the batch, and growing offsets where the deltas grow.
pub proof fn lemma_stamped_batch(batch: Batch, name: Seq<u8>, n: nat)
    requires
        n <= batch.messages@.len(),
        batch::offsets_fit(Some(&batch), name),
        forall|i: int, j: int|
            0 <= i < j < batch.messages@.len() ==> (#[trigger] batch.messages@[i]).offset_delta < (
            #[trigger] batch.messages@[j]).offset_delta,
    ensures
        ({
            let keys = batch::stamped_prefix(batch, name, n);
            &&& keys.map_values(|key: StampedKey| key.key) == keyed(
                batch::batch_keys(batch, name).take(n as int),
            )
            &&& forall|i: int|
                0 <= i < keys.len() ==> {
                    &&& (#[trigger] keys[i]).timestamp == batch.base_timestamp
                    &&& batch.base_offset <= keys[i].offset
                    &&& n < batch.messages@.len() ==> keys[i].offset < batch.base_offset
                        + batch.messages@[n as int].offset_delta
                }
            &&& forall|i: int, j: int|
                0 <= i < j < keys.len() ==> (#[trigger] keys[i]).offset < (
                #[trigger] keys[j]).offset
        }),
    decreases n,
{
    let all = batch::batch_keys(batch, name);
    let keys = batch::stamped_prefix(batch, name, n);
    if n == 0 {
        assert(keys.map_values(|key: StampedKey| key.key) =~= Seq::empty());
    } else {
        let before = (n - 1) as nat;
        lemma_stamped_batch(batch, name, before);
        let shorter = batch::stamped_prefix(batch, name, before);
        assert(all.take(n as int).drop_last() =~= all.take(before as int));
        assert(all.take(n as int).last() == all[n - 1]);
        let message = batch.messages@[n - 1];
        if n < batch.messages@.len() {
            assert(message.offset_delta < batch.messages@[n as int].offset_delta);
        }
        if let Some(key) = key::key_of(message.user_headers@, name) {
            assert(keys.map_values(|key: StampedKey| key.key) =~= shorter.map_values(
                |key: StampedKey| key.key,
            ).push(key));
            assert(batch.base_offset + message.offset_delta <= u64::MAX);
        }
    }
}

// ---------------------------------------------------------------------------
// Retries
// ---------------------------------------------------------------------------

/// Duplicates are exactly the repeats inside the window: once the time is no
/// earlier than the newest committed message, a key matches as committed if
/// and only if a committed message with it is inside the window.
pub proof fn lemma_duplicates_are_the_repeats_inside_the_window(
    state: PartitionState,
    start: IndexView,
    key: u128,
    now: u64,
    window_micros: u64,
)
    requires
        state.sound(start, window_micros),
        laws::newest_of(state.committed) <= now,
    ensures
        state.screening(now, window_micros).lookup(key) == Some(DedupMatch::Committed)
            <==> exists|i: int|
            0 <= i < state.committed.len() && (#[trigger] state.committed[i]).key == key
                && state.committed[i].timestamp + window_micros > now && now < u64::MAX,
{
    if state.screening(now, window_micros).lookup(key) == Some(DedupMatch::Committed) {
        lemma_matched_key_is_committed(state, start, key, now, window_micros);
    } else {
        assert forall|i: int|
            0 <= i < state.committed.len() && (
            #[trigger] state.committed[i]).key == key implies state.committed[i].timestamp
            + window_micros <= now || now == u64::MAX by {
            lemma_unmatched_key_has_left_the_window(state, start, key, now, window_micros, i);
        }
    }
}

/// A request that was deferred is dropped once its original has committed: the
/// keys of an op that commits match as committed until their window ends.
pub proof fn lemma_retry_after_commit_is_dropped(
    state: PartitionState,
    start: IndexView,
    keys: Seq<StampedKey>,
    op: u64,
    window_micros: u64,
    i: int,
    now: u64,
)
    requires
        state.sound(start, window_micros),
        keys.len() <= state.appended.len(),
        records(keys, op) == state.appended.take(keys.len() as int),
        forall|j: int|
            keys.len() <= j < state.appended.len() ==> (#[trigger] state.appended[j]).op > op,
        laws::never_saturated(
            start,
            laws::as_stored(state.committed + records(keys, op)),
            window_micros,
        ),
        0 <= i < keys.len(),
        laws::newest_of(state.committed + records(keys, op)) <= now,
        keys[i].timestamp + window_micros > now,
        now < u64::MAX,
    ensures
        state.after_commit(keys, op, window_micros).screening(now, window_micros).lookup(
            keys[i].key,
        ) == Some(DedupMatch::Committed),
{
    let after = state.after_commit(keys, op, window_micros);
    lemma_commit_keeps_the_partition_sound(state, start, keys, op, window_micros);
    lemma_duplicates_are_the_repeats_inside_the_window(
        after,
        start,
        keys[i].key,
        now,
        window_micros,
    );
    assert(after.committed[state.committed.len() + i] == records(keys, op)[i]);
}

/// A request that was deferred is no longer once its original has been
/// truncated: the keys of the messages taken away match nothing uncommitted.
pub proof fn lemma_retry_after_truncation_is_not_deferred(
    state: PartitionState,
    start: IndexView,
    kept: nat,
    from_op: u64,
    window_micros: u64,
    i: int,
    now: u64,
)
    requires
        state.sound(start, window_micros),
        kept <= i < state.appended.len(),
        state.appended[i].op >= from_op,
    ensures
        state.after_truncation(kept, from_op).screening(now, window_micros).lookup(
            state.appended[i].key,
        ) != Some(DedupMatch::Uncommitted),
{
    assert(state.index.pending_by(state.appended[i].key, state.appended[i].op));
}

// ---------------------------------------------------------------------------
// Runs
// ---------------------------------------------------------------------------

/// A step of a run.
pub enum Step {
    /// The primary admits what it keeps of `request`, screened at `now`, as
    /// messages with `keys` under `op`.
    Admit { request: Seq<Option<u128>>, now: u64, timestamp: u64, keys: Seq<StampedKey>, op: u64 },
    /// The oldest op that has not committed does.
    Commit { keys: Seq<StampedKey>, op: u64 },
    /// A view change takes away what `from_op` and later ops appended.
    Truncate { kept: nat, from_op: u64 },
    /// A replica's index is rebuilt from committed storage.
    Rebuild { fresh: IndexView },
}

impl PartitionState {
    /// Whether `step` can be taken here. A request that matches an uncommitted
    /// message is deferred, and the cap must not evict what is live.
    pub open spec fn allows(self, step: Step, start: IndexView, window_micros: u64) -> bool {
        match step {
            Step::Admit { request, now, timestamp, keys, op } => {
                &&& !self.screening(now, window_micros).matches_uncommitted(request)
                &&& stamps_kept_messages(self, request, now, window_micros, timestamp, keys)
                &&& op > self.commit_op
                &&& forall|i: int|
                    0 <= i < self.appended.len() ==> (#[trigger] self.appended[i]).op <= op
            },
            Step::Commit { keys, op } => {
                &&& keys.len() <= self.appended.len()
                &&& records(keys, op) == self.appended.take(keys.len() as int)
                &&& forall|i: int|
                    keys.len() <= i < self.appended.len() ==> (#[trigger] self.appended[i]).op > op
                &&& laws::never_saturated(
                    start,
                    laws::as_stored(self.committed + records(keys, op)),
                    window_micros,
                )
            },
            Step::Truncate { kept, from_op } => {
                &&& kept <= self.appended.len()
                &&& forall|i: int| 0 <= i < kept ==> (#[trigger] self.appended[i]).op < from_op
            },
            Step::Rebuild { fresh } => {
                &&& laws::nothing_committed(fresh)
                &&& fresh.entries_max == start.entries_max
            },
        }
    }

    /// The partition after `step`.
    pub open spec fn after(self, step: Step, window_micros: u64) -> PartitionState {
        match step {
            Step::Admit { request, now, timestamp, keys, op } => self.after_admission(keys, op),
            Step::Commit { keys, op } => self.after_commit(keys, op, window_micros),
            Step::Truncate { kept, from_op } => self.after_truncation(kept, from_op),
            Step::Rebuild { fresh } => self.after_rebuild(fresh, window_micros),
        }
    }

    /// Whether a run from this partition can take every one of `steps`.
    pub open spec fn allows_run(
        self,
        steps: Seq<Step>,
        start: IndexView,
        window_micros: u64,
    ) -> bool
        decreases steps.len(),
    {
        if steps.len() == 0 {
            true
        } else {
            &&& self.allows_run(steps.drop_last(), start, window_micros)
            &&& self.after_run(steps.drop_last(), window_micros).allows(
                steps.last(),
                start,
                window_micros,
            )
        }
    }

    /// The partition after a run of `steps`.
    pub open spec fn after_run(self, steps: Seq<Step>, window_micros: u64) -> PartitionState
        decreases steps.len(),
    {
        if steps.len() == 0 {
            self
        } else {
            self.after_run(steps.drop_last(), window_micros).after(steps.last(), window_micros)
        }
    }
}

/// In every run, no key is in the log twice within the window, what is
/// committed is never taken back, and the index stays true to the log.
pub proof fn lemma_no_run_repeats_a_key_within_the_window(
    state: PartitionState,
    start: IndexView,
    steps: Seq<Step>,
    window_micros: u64,
)
    requires
        state.sound(start, window_micros),
        state.allows_run(steps, start, window_micros),
    ensures
        state.after_run(steps, window_micros).sound(start, window_micros),
        unique_within_window(state.after_run(steps, window_micros).log(), window_micros),
        ({
            let after = state.after_run(steps, window_micros);
            let log = after.committed + after.appended;
            forall|i: int, j: int|
                #![trigger log[i], log[j]]
                0 <= i < j < log.len() && log[i].key == log[j].key && log[j].timestamp < u64::MAX
                    ==> log[i].timestamp + window_micros <= log[j].timestamp
        }),
        state.committed.is_prefix_of(state.after_run(steps, window_micros).committed),
    decreases steps.len(),
{
    if steps.len() > 0 {
        let before = state.after_run(steps.drop_last(), window_micros);
        lemma_no_run_repeats_a_key_within_the_window(
            state,
            start,
            steps.drop_last(),
            window_micros,
        );
        let after = before.after(steps.last(), window_micros);
        match steps.last() {
            Step::Admit { request, now, timestamp, keys, op } => {
                lemma_admission_keeps_keys_unique(
                    before,
                    start,
                    request,
                    now,
                    window_micros,
                    timestamp,
                    keys,
                    op,
                );
            },
            Step::Commit { keys, op } => {
                lemma_commit_keeps_the_partition_sound(before, start, keys, op, window_micros);
                assert(state.committed =~= after.committed.subrange(
                    0,
                    state.committed.len() as int,
                ));
            },
            Step::Truncate { kept, from_op } => {
                lemma_truncation_keeps_the_partition_sound(
                    before,
                    start,
                    kept,
                    from_op,
                    window_micros,
                );
            },
            Step::Rebuild { fresh } => {
                lemma_rebuild_keeps_the_partition_sound(before, start, fresh, window_micros);
            },
        }
    }
}

} // verus!
