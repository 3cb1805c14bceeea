//! The per-partition dedup index.
//!
//! # Committed and pending
//!
//! The index has two halves. Committed keys are written only from committed
//! content: every replica folds each op's batch as the commit walk passes it,
//! and a rebuild reads committed storage back. Replicas at the same commit
//! therefore hold the same committed keys, and a backup promoted by a view
//! change decides exactly as its predecessor would have. Only a committed key
//! inside the window ever drops a message.
//!
//! Pending keys are those of appended but uncommitted batches, tagged with the
//! op that appended them. A message matching one is not known to be a
//! duplicate: its original can still be truncated by a view change, so the
//! request is deferred as a whole. Truncation rolls pending keys back, and
//! when an op commits every pending key at or below it is swept, which also
//! clears any that a rollback path failed to report.

use std::collections::{BTreeMap, HashMap, VecDeque};

use vstd::prelude::*;

use crate::hash;
use crate::index_model;
use crate::index_model::{DedupCounters, DedupMatch, IndexView, Occurrence, REBUILT_OP};
use crate::key::DedupKey;
use crate::wire;

verus! {

broadcast use {
    vstd::std_specs::hash::group_hash_axioms,
    vstd::std_specs::btree::group_btree_axioms,
};

/// Default cap on distinct keys held per partition.
///
/// Past the cap the oldest entries are evicted even inside the window; that is
/// counted as saturation, because it means the window is not fully enforced.
pub const DEFAULT_MESSAGE_DEDUP_ENTRIES_MAX: usize = 1_000_000;

/// Queue length up to which stale items are never compacted away.
pub const COMPACTION_FLOOR: usize = 64;

/// One indexed occurrence of a key.
#[derive(Debug, Clone, Copy, PartialEq, Eq)]
pub struct DedupEntry {
    /// Absolute offset of the message holding the key.
    pub offset: u64,
    /// Broker timestamp of the batch that appended it, in microseconds.
    pub timestamp: u64,
    /// Op that appended it, or [`REBUILT_OP`] when read back from storage.
    pub op: u64,
    /// Number of the recording that put the entry there.
    pub seq: u64,
}

impl View for DedupEntry {
    type V = Occurrence;

    open spec fn view(&self) -> Occurrence {
        Occurrence { offset: self.offset, timestamp: self.timestamp, op: self.op }
    }
}

/// Whether a queue item is the one of its key's committed entry, rather than
/// one left behind by a replaced or evicted entry.
spec fn is_live(committed: Map<u128, DedupEntry>, item: (u64, u128)) -> bool {
    committed.contains_key(item.1) && committed[item.1].seq == item.0
}

/// The keys of the live items of `queue`, in queue order.
spec fn live_keys(queue: Seq<(u64, u128)>, committed: Map<u128, DedupEntry>) -> Seq<u128>
    decreases queue.len(),
{
    if queue.len() == 0 {
        Seq::empty()
    } else if is_live(committed, queue[0]) {
        seq![queue[0].1] + live_keys(queue.drop_first(), committed)
    } else {
        live_keys(queue.drop_first(), committed)
    }
}

/// The entries of a map with their recording numbers left out.
spec fn occurrences(entries: Map<u128, DedupEntry>) -> Map<u128, Occurrence> {
    entries.map_values(|entry: DedupEntry| entry@)
}

/// The longest a queue over `live` entries may be.
spec fn queue_bound(live: nat) -> nat {
    if 2 * live > COMPACTION_FLOOR {
        2 * live
    } else {
        COMPACTION_FLOOR as nat
    }
}

proof fn lemma_live_keys_concat(
    front: Seq<(u64, u128)>,
    back: Seq<(u64, u128)>,
    committed: Map<u128, DedupEntry>,
)
    ensures
        live_keys(front + back, committed) == live_keys(front, committed) + live_keys(
            back,
            committed,
        ),
    decreases front.len(),
{
    if front.len() == 0 {
        assert(front + back =~= back);
        assert(live_keys(front, committed) + live_keys(back, committed) =~= live_keys(
            back,
            committed,
        ));
    } else {
        assert((front + back).drop_first() =~= front.drop_first() + back);
        assert((front + back)[0] == front[0]);
        lemma_live_keys_concat(front.drop_first(), back, committed);
        assert(live_keys(front + back, committed) =~= live_keys(front, committed) + live_keys(
            back,
            committed,
        ));
    }
}

proof fn lemma_live_keys_push(
    queue: Seq<(u64, u128)>,
    item: (u64, u128),
    committed: Map<u128, DedupEntry>,
)
    ensures
        is_live(committed, item) ==> live_keys(queue.push(item), committed) == live_keys(
            queue,
            committed,
        ).push(item.1),
        !is_live(committed, item) ==> live_keys(queue.push(item), committed) == live_keys(
            queue,
            committed,
        ),
{
    lemma_live_keys_concat(queue, seq![item], committed);
    assert(queue.push(item) =~= queue + seq![item]);
    assert(seq![item].drop_first() =~= Seq::empty());
    reveal_with_fuel(live_keys, 2);
    if is_live(committed, item) {
        assert(live_keys(seq![item], committed) =~= seq![item.1]);
        assert(live_keys(queue, committed) + seq![item.1] =~= live_keys(queue, committed).push(
            item.1,
        ));
    } else {
        assert(live_keys(seq![item], committed) =~= Seq::empty());
        assert(live_keys(queue, committed) + Seq::<u128>::empty() =~= live_keys(queue, committed));
    }
}

/// Only the liveness of the queue's own items matters.
proof fn lemma_live_keys_agree(
    queue: Seq<(u64, u128)>,
    left: Map<u128, DedupEntry>,
    right: Map<u128, DedupEntry>,
)
    requires
        forall|i: int|
            0 <= i < queue.len() ==> is_live(left, #[trigger] queue[i]) == is_live(right, queue[i]),
    ensures
        live_keys(queue, left) == live_keys(queue, right),
    decreases queue.len(),
{
    if queue.len() > 0 {
        let rest = queue.drop_first();
        assert forall|i: int| 0 <= i < rest.len() implies is_live(left, #[trigger] rest[i])
            == is_live(right, rest[i]) by {
            assert(rest[i] == queue[i + 1]);
        }
        lemma_live_keys_agree(rest, left, right);
        assert(is_live(left, queue[0]) == is_live(right, queue[0]));
    }
}

/// A key is among the live keys when one of the queue's items is live for it.
proof fn lemma_live_keys_contains(
    queue: Seq<(u64, u128)>,
    committed: Map<u128, DedupEntry>,
    key: u128,
)
    ensures
        live_keys(queue, committed).contains(key) <==> (committed.contains_key(key)
            && queue.contains((committed[key].seq, key))),
    decreases queue.len(),
{
    let live = live_keys(queue, committed);
    let item = (committed[key].seq, key);
    if queue.len() > 0 {
        let rest = queue.drop_first();
        let live_rest = live_keys(rest, committed);
        lemma_live_keys_contains(rest, committed, key);
        if live_rest.contains(key) {
            let i = choose|i: int| 0 <= i < live_rest.len() && live_rest[i] == key;
            if is_live(committed, queue[0]) {
                assert(live[i + 1] == key);
            }
        }
        if rest.contains(item) {
            let i = choose|i: int| 0 <= i < rest.len() && rest[i] == item;
            assert(queue[i + 1] == item);
        }
        if live.contains(key) && !live_rest.contains(key) {
            let i = choose|i: int| 0 <= i < live.len() && live[i] == key;
            assert(is_live(committed, queue[0]));
            if i > 0 {
                assert(live_rest[i - 1] == key);
            }
            assert(queue[0] == item);
        }
        if committed.contains_key(key) && queue.contains(item) && !rest.contains(item) {
            let i = choose|i: int| 0 <= i < queue.len() && queue[i] == item;
            if i > 0 {
                assert(rest[i - 1] == item);
            }
            assert(is_live(committed, queue[0]));
            assert(live[0] == key);
        }
    }
}

/// A queue has no more live items than items.
proof fn lemma_live_keys_short(queue: Seq<(u64, u128)>, committed: Map<u128, DedupEntry>)
    ensures
        live_keys(queue, committed).len() <= queue.len(),
    decreases queue.len(),
{
    if queue.len() > 0 {
        lemma_live_keys_short(queue.drop_first(), committed);
    }
}

/// Queue numbers grow from front to back.
spec fn numbered(queue: Seq<(u64, u128)>, next_seq: u64) -> bool {
    &&& forall|i: int, j: int| 0 <= i < j < queue.len() ==> #[trigger] queue[i].0 < #[trigger] queue[j].0
    &&& forall|i: int| 0 <= i < queue.len() ==> #[trigger] queue[i].0 < next_seq
}

proof fn lemma_live_keys_distinct(
    queue: Seq<(u64, u128)>,
    committed: Map<u128, DedupEntry>,
    next_seq: u64,
)
    requires
        numbered(queue, next_seq),
    ensures
        live_keys(queue, committed).no_duplicates(),
    decreases queue.len(),
{
    if queue.len() > 0 {
        let rest = queue.drop_first();
        assert forall|i: int, j: int| 0 <= i < j < rest.len() implies #[trigger] rest[i].0
            < #[trigger] rest[j].0 by {
            assert(rest[i] == queue[i + 1] && rest[j] == queue[j + 1]);
        }
        assert forall|i: int| 0 <= i < rest.len() implies #[trigger] rest[i].0 < next_seq by {
            assert(rest[i] == queue[i + 1]);
        }
        lemma_live_keys_distinct(rest, committed, next_seq);
        if is_live(committed, queue[0]) {
            lemma_live_keys_contains(rest, committed, queue[0].1);
            if live_keys(rest, committed).contains(queue[0].1) {
                let i = choose|i: int| 0 <= i < rest.len() && rest[i] == queue[0];
                assert(queue[i + 1] == queue[0]);
                assert(false);
            }
        }
    }
}

/// Replacing a key's entry by one that no queue item belongs to takes the key
/// out of the live keys and leaves the others in place.
proof fn lemma_live_keys_replace(
    queue: Seq<(u64, u128)>,
    committed: Map<u128, DedupEntry>,
    key: u128,
    entry: DedupEntry,
)
    requires
        forall|i: int| 0 <= i < queue.len() ==> #[trigger] queue[i].0 < entry.seq,
    ensures
        live_keys(queue, committed.insert(key, entry)) == index_model::without(
            live_keys(queue, committed),
            key,
        ),
    decreases queue.len(),
{
    let replaced = committed.insert(key, entry);
    let keep = index_model::other_than(key);
    if queue.len() == 0 {
        assert(index_model::without(live_keys(queue, committed), key) =~= Seq::empty()) by {
            reveal(Seq::filter);
        }
    } else {
        let rest = queue.drop_first();
        assert forall|i: int| 0 <= i < rest.len() implies #[trigger] rest[i].0 < entry.seq by {
            assert(rest[i] == queue[i + 1]);
        }
        lemma_live_keys_replace(rest, committed, key, entry);
        let first = queue[0];
        assert(first.0 < entry.seq);
        if is_live(committed, first) {
            Seq::filter_distributes_over_add(seq![first.1], live_keys(rest, committed), keep);
            assert(seq![first.1].filter(keep) =~= if keep(first.1) {
                seq![first.1]
            } else {
                Seq::empty()
            }) by {
                reveal_with_fuel(Seq::filter, 2);
                assert(seq![first.1].drop_last() =~= Seq::empty());
            }
            if first.1 == key {
                assert(!is_live(replaced, first));
                assert(Seq::<u128>::empty() + index_model::without(live_keys(rest, committed), key)
                    =~= index_model::without(live_keys(rest, committed), key));
            } else {
                assert(is_live(replaced, first));
            }
        } else {
            assert(!is_live(replaced, first));
        }
    }
}

/// One more taken item is one more item contained.
proof fn lemma_take_contains<T>(items: Seq<T>, n: int)
    requires
        0 <= n < items.len(),
    ensures
        forall|item: T| #[trigger]
            items.take(n + 1).contains(item) <==> items.take(n).contains(item) || item == items[n],
{
    assert(items.take(n + 1) =~= items.take(n).push(items[n]));
    lemma_push_contains(items.take(n), items[n]);
}

/// A pushed sequence contains what it did and the pushed item.
proof fn lemma_push_contains<T>(items: Seq<T>, last: T)
    ensures
        forall|item: T| #[trigger]
            items.push(last).contains(item) <==> items.contains(item) || item == last,
{
    assert forall|item: T| #[trigger]
        items.push(last).contains(item) <==> items.contains(item) || item == last by {
        if items.contains(item) {
            let i = choose|i: int| 0 <= i < items.len() && items[i] == item;
            assert(items.push(last)[i] == item);
        }
        assert(items.push(last)[items.len() as int] == last);
    }
}

/// What the order of a map's iteration means for its keys.
proof fn lemma_increasing(keys: Seq<u128>)
    requires
        vstd::std_specs::btree::increasing_seq(keys),
    ensures
        forall|i: int, j: int| 0 <= i < j < keys.len() ==> #[trigger] keys[i] < #[trigger] keys[j],
{
    assert forall|i: int, j: int| 0 <= i < j < keys.len() implies #[trigger] keys[i]
        < #[trigger] keys[j] by {
        assert(vstd::std_specs::cmp::OrdSpec::cmp_spec(&keys[i], &keys[j]) is Less);
    }
}

/// The per-partition dedup index. See the module docs for its invariants.
#[derive(Debug)]
pub struct MessageDedupIndex {
    committed: HashMap<u128, DedupEntry>,
    /// Recordings of `committed`, oldest first, for eviction. An item whose
    /// number no longer matches the entry of its key is stale and skipped.
    order: VecDeque<(u64, u128)>,
    pending: HashMap<u128, DedupEntry>,
    /// Recordings of `pending` by the op that appended them. Items go stale
    /// as in `order`.
    pending_by_op: BTreeMap<u64, Vec<(u128, u64)>>,
    next_seq: u64,
    /// Newest committed timestamp folded in. Physical eviction is measured
    /// against it, never against a local clock.
    newest_timestamp: u64,
    entries_max: usize,
    counters: DedupCounters,
}

impl View for MessageDedupIndex {
    type V = IndexView;

    closed spec fn view(&self) -> IndexView {
        IndexView {
            committed: occurrences(self.committed@),
            order: live_keys(self.order@, self.committed@),
            pending: occurrences(self.pending@),
            newest_timestamp: self.newest_timestamp,
            entries_max: self.entries_max as nat,
            counters: self.counters,
            recordings: self.next_seq as nat,
        }
    }
}

impl MessageDedupIndex {
    /// How many items the eviction queue holds, stale ones included.
    pub closed spec fn queue_len(&self) -> nat {
        self.order@.len()
    }

    /// Every committed entry has its item in the queue.
    spec fn committed_linked(&self) -> bool {
        &&& numbered(self.order@, self.next_seq)
        &&& forall|key: u128| #[trigger]
            self.committed@.contains_key(key) ==> self.order@.contains(
                (self.committed@[key].seq, key),
            )
    }

    /// Every pending entry has its item in the list of its op, and an item
    /// that belongs to an entry is in the list of that entry's op.
    spec fn pending_linked(&self) -> bool {
        &&& forall|key: u128| #[trigger]
            self.pending@.contains_key(key) ==> {
                let entry = self.pending@[key];
                &&& self.pending_by_op@.contains_key(entry.op)
                &&& self.pending_by_op@[entry.op]@.contains((key, entry.seq))
            }
        &&& forall|op: u64, i: int|
            #![trigger self.pending_by_op@[op]@[i]]
            self.pending_by_op@.contains_key(op) && 0 <= i < self.pending_by_op@[op]@.len() ==> {
                let item = self.pending_by_op@[op]@[i];
                &&& item.1 < self.next_seq
                &&& self.pending@.contains_key(item.0) && self.pending@[item.0].seq == item.1
                    ==> self.pending@[item.0].op == op
            }
    }

    /// The invariant of the index: the queue and the op lists account for
    /// every entry, no more entries are committed than the cap allows, and
    /// stale queue items do not outgrow the live ones.
    pub closed spec fn well_formed(&self) -> bool {
        &&& self.committed_linked()
        &&& self.pending_linked()
        &&& self.entries_max >= 1
        &&& self.committed@.len() <= self.entries_max
        &&& self.order@.len() <= queue_bound(self.committed@.len())
    }

    /// A well-formed index lists each committed key once, keeps to its cap, and
    /// holds finitely many keys in either half.
    pub proof fn lemma_well_formed(&self)
        requires
            self.well_formed(),
        ensures
            self@.valid(),
            self@.committed.dom().len() == self@.order.len(),
            self@.committed.dom().finite(),
            self@.pending.dom().finite(),
    {
        self.lemma_order();
        assert(self@.pending.dom() =~= self.pending@.dom());
    }

    proof fn lemma_order(&self)
        requires
            self.committed_linked(),
        ensures
            self@.ordered(),
            self@.order.len() == self.committed@.len(),
            self@.committed.dom() == self.committed@.dom(),
    {
        lemma_live_keys_distinct(self.order@, self.committed@, self.next_seq);
        assert forall|key: u128| #[trigger]
            self@.committed.contains_key(key) <==> self@.order.contains(key) by {
            lemma_live_keys_contains(self.order@, self.committed@, key);
        }
        assert(self@.committed.dom() =~= self.committed@.dom());
        assert(self@.order.to_set() =~= self.committed@.dom());
        self@.order.unique_seq_to_set();
    }

    /// An index that holds at most `entries_max` committed keys, and at least
    /// one.
    pub fn new(entries_max: usize) -> (index: Self)
        ensures
            index.well_formed(),
            index@ == IndexView::empty(entries_max as nat),
            index@.committed == Map::<u128, Occurrence>::empty(),
            index@.pending == Map::<u128, Occurrence>::empty(),
            index@.newest_timestamp == 0,
            index@.recordings == 0,
            entries_max >= 1 ==> index@.entries_max == entries_max,
            entries_max == 0 ==> index@.entries_max == 1,
    {
        let index = MessageDedupIndex {
            committed: HashMap::new(),
            order: VecDeque::new(),
            pending: HashMap::new(),
            pending_by_op: BTreeMap::new(),
            next_seq: 0,
            newest_timestamp: 0,
            entries_max: if entries_max == 0 {
                1
            } else {
                entries_max
            },
            counters: DedupCounters::default(),
        };
        assert(index@ =~= IndexView::empty(entries_max as nat));
        index
    }

    /// Committed keys held.
    pub fn len(&self) -> (len: usize)
        requires
            self.well_formed(),
        ensures
            len == self@.committed.dom().len(),
    {
        proof {
            self.lemma_order();
        }
        self.committed.len()
    }

    /// Whether no committed key is held.
    pub fn is_empty(&self) -> (empty: bool)
        requires
            self.well_formed(),
        ensures
            empty == (self@.committed == Map::<u128, Occurrence>::empty()),
    {
        proof {
            self.lemma_order();
            if self.committed@.dom().len() == 0 {
                assert(self@.committed.dom() =~= Set::empty());
                assert(self@.committed =~= Map::empty());
            }
        }
        self.committed.is_empty()
    }

    /// Uncommitted keys held.
    pub fn pending_len(&self) -> (len: usize)
        requires
            self.well_formed(),
        ensures
            len == self@.pending.dom().len(),
            self@.pending.dom().finite(),
    {
        assert(self@.pending.dom() =~= self.pending@.dom());
        self.pending.len()
    }

    /// The most committed keys the index may hold.
    pub fn entries_max(&self) -> (entries_max: usize)
        ensures
            entries_max == self@.entries_max,
    {
        self.entries_max
    }

    /// How many recordings have been numbered so far. The numbers run out at
    /// the largest `u64`.
    pub fn recordings(&self) -> (count: u64)
        ensures
            count == self@.recordings,
    {
        self.next_seq
    }

    /// Items in the eviction queue, stale ones included: never more than
    /// twice the committed keys, or [`COMPACTION_FLOOR`] when that is more.
    pub fn order_len(&self) -> (len: usize)
        requires
            self.well_formed(),
        ensures
            len == self.queue_len(),
            len >= self@.committed.dom().len(),
            len <= COMPACTION_FLOOR || len <= 2 * self@.committed.dom().len(),
            len <= 64 || len <= 2 * self@.committed.dom().len(),
    {
        proof {
            self.lemma_order();
            lemma_live_keys_short(self.order@, self.committed@);
        }
        self.order.len()
    }

    /// Change the cap, and evict down to it.
    pub fn set_entries_max(&mut self, entries_max: usize, window_micros: u64)
        requires
            old(self).well_formed(),
        ensures
            final(self).well_formed(),
            final(self)@ == old(self)@.set_entries_max(entries_max as nat, window_micros),
    {
        let ghost start = self@;
        self.entries_max = if entries_max == 0 {
            1
        } else {
            entries_max
        };
        assert(self@ =~= IndexView { entries_max: self.entries_max as nat, ..start });
        self.evict(window_micros);
    }

    /// The committed occurrence of `key`.
    pub fn committed_entry(&self, key: DedupKey) -> (entry: Option<&DedupEntry>)
        ensures
            entry is Some <==> self@.committed.contains_key(key@),
            entry matches Some(found) ==> found@ == self@.committed[key@],
            entry matches Some(found) ==> {
                &&& found.offset == self@.committed[key@].offset
                &&& found.timestamp == self@.committed[key@].timestamp
                &&& found.op == self@.committed[key@].op
            },
    {
        self.committed.get(&key.as_raw())
    }

    /// The uncommitted occurrence of `key`.
    pub fn pending_entry(&self, key: DedupKey) -> (entry: Option<&DedupEntry>)
        ensures
            entry is Some <==> self@.pending.contains_key(key@),
            entry matches Some(found) ==> found@ == self@.pending[key@],
            entry matches Some(found) ==> {
                &&& found.offset == self@.pending[key@].offset
                &&& found.timestamp == self@.pending[key@].timestamp
                &&& found.op == self@.pending[key@].op
            },
    {
        self.pending.get(&key.as_raw())
    }

    /// How `key` matches as of `now`: a committed occurrence inside the
    /// window, else an uncommitted occurrence above `commit_op`.
    ///
    /// A pending occurrence at or below `commit_op` can no longer commit: its
    /// op already did, with content the commit walk has either indexed or
    /// could not read. It is ignored rather than trusted either way. Treating
    /// it as uncommitted would defer the key until a later commit sweeps it,
    /// and when every request in flight carries such a key nothing commits,
    /// so nothing would ever sweep it.
    pub fn lookup(&self, key: DedupKey, now: u64, window_micros: u64, commit_op: u64) -> (found:
        Option<DedupMatch>)
        ensures
            found == self@.lookup(key@, now, window_micros, commit_op),
            found == Some(DedupMatch::Committed) <==> {
                &&& self@.committed.contains_key(key@)
                &&& self@.committed[key@].timestamp + window_micros > now
                &&& now < u64::MAX
            },
            found == Some(DedupMatch::Uncommitted) <==> {
                &&& !(self@.committed.contains_key(key@) && self@.committed[key@].timestamp
                    + window_micros > now && now < u64::MAX)
                &&& self@.pending.contains_key(key@)
                &&& self@.pending[key@].op > commit_op
            },
    {
        let raw = key.as_raw();
        if let Some(entry) = self.committed.get(&raw) {
            if entry.timestamp.saturating_add(window_micros) > now {
                return Some(DedupMatch::Committed);
            }
        }
        match self.pending.get(&raw) {
            Some(entry) => if entry.op > commit_op {
                Some(DedupMatch::Uncommitted)
            } else {
                None
            },
            None => None,
        }
    }

    /// `op` committed: drop every uncommitted occurrence at or below it. The
    /// committed ones were just indexed from the committed content, so what is
    /// left is either that same content (now redundant) or an occurrence from
    /// a log suffix this replica lost without a reported truncation.
    pub fn sweep_committed_through(&mut self, op: u64)
        requires
            old(self).well_formed(),
        ensures
            final(self).well_formed(),
            final(self)@ == old(self)@.sweep_committed_through(op),
            final(self).queue_len() == old(self).queue_len(),
    {
        let ops = self.pending_ops();
        let mut swept: Vec<u64> = Vec::new();
        let mut i: usize = 0;
        while i < ops.len()
            invariant
                i <= ops@.len(),
                ops@.no_duplicates(),
                swept@.no_duplicates(),
                forall|at: u64| #[trigger]
                    swept@.contains(at) <==> at <= op && ops@.take(i as int).contains(at),
            decreases ops@.len() - i,
        {
            let at = ops[i];
            proof {
                lemma_take_contains(ops@, i as int);
            }
            let ghost before = swept@;
            assert(!before.contains(at)) by {
                assert(!ops@.take(i as int).contains(at));
            }
            if at <= op {
                swept.push(at);
                proof {
                    lemma_push_contains(before, at);
                }
            }
            i += 1;
        }
        assert(ops@.take(ops@.len() as int) =~= ops@);
        assert forall|j: int| 0 <= j < swept@.len() implies self.pending_by_op@.contains_key(
            #[trigger] swept@[j],
        ) by {
            assert(swept@.contains(swept@[j]));
        }
        let ghost start = *self;
        self.forget_ops(&swept);
        proof {
            assert(self@.pending =~= start@.sweep_committed_through(op).pending);
            assert(self@ =~= start@.sweep_committed_through(op));
        }
    }

    /// Forget every uncommitted occurrence appended by `from_op` or later,
    /// mirroring a truncation of the uncommitted log suffix. Committed
    /// entries are never truncated.
    pub fn truncate_from_op(&mut self, from_op: u64)
        requires
            old(self).well_formed(),
        ensures
            final(self).well_formed(),
            final(self)@ == old(self)@.truncate_from_op(from_op),
            final(self).queue_len() == old(self).queue_len(),
    {
        let ops = self.pending_ops();
        let mut truncated: Vec<u64> = Vec::new();
        let mut i: usize = 0;
        while i < ops.len()
            invariant
                i <= ops@.len(),
                ops@.no_duplicates(),
                truncated@.no_duplicates(),
                forall|at: u64| #[trigger]
                    truncated@.contains(at) <==> at >= from_op && ops@.take(i as int).contains(at),
            decreases ops@.len() - i,
        {
            let at = ops[i];
            proof {
                lemma_take_contains(ops@, i as int);
            }
            let ghost before = truncated@;
            assert(!before.contains(at)) by {
                assert(!ops@.take(i as int).contains(at));
            }
            if at >= from_op {
                truncated.push(at);
                proof {
                    lemma_push_contains(before, at);
                }
            }
            i += 1;
        }
        assert(ops@.take(ops@.len() as int) =~= ops@);
        assert forall|j: int| 0 <= j < truncated@.len() implies self.pending_by_op@.contains_key(
            #[trigger] truncated@[j],
        ) by {
            assert(truncated@.contains(truncated@[j]));
        }
        let ghost start = *self;
        self.forget_ops(&truncated);
        proof {
            assert(self@.pending =~= start@.truncate_from_op(from_op).pending);
            assert(self@ =~= start@.truncate_from_op(from_op));
        }
    }

    /// Forget both halves and the eviction reference.
    pub fn clear(&mut self)
        requires
            old(self).well_formed(),
        ensures
            final(self).well_formed(),
            final(self)@ == old(self)@.clear(),
            final(self).queue_len() == 0,
    {
        let ghost start = *self;
        self.committed.clear();
        self.order.clear();
        self.pending.clear();
        self.pending_by_op.clear();
        self.newest_timestamp = 0;
        assert(self@ =~= start@.clear());
    }

    /// The counters accumulated since they were last taken.
    pub fn counters(&self) -> (counters: DedupCounters)
        ensures
            counters == self@.counters,
    {
        self.counters
    }

    /// Return the counters accumulated since the last call and reset them.
    pub fn take_counters(&mut self) -> (counters: DedupCounters)
        requires
            old(self).well_formed(),
        ensures
            final(self).well_formed(),
            counters == old(self)@.counters,
            final(self)@ == (IndexView { counters: DedupCounters::zero(), ..old(self)@ }),
            final(self)@.counters.dropped == 0,
            final(self)@.counters.deferred == 0,
            final(self)@.counters.evicted_live == 0,
            final(self)@.counters.unconfirmed_commits == 0,
    {
        let counters = self.counters;
        self.counters = DedupCounters::default();
        counters
    }

    /// Count messages removed from a request.
    pub fn note_dropped(&mut self, dropped: u64)
        requires
            old(self).well_formed(),
        ensures
            final(self).well_formed(),
            final(self)@ == (IndexView {
                counters: DedupCounters {
                    dropped: index_model::capped_sum(old(self)@.counters.dropped, dropped),
                    ..old(self)@.counters
                },
                ..old(self)@
            }),
            old(self)@.counters.dropped + dropped <= u64::MAX ==> final(self)@.counters.dropped
                == old(self)@.counters.dropped + dropped,
            old(self)@.counters.dropped + dropped > u64::MAX ==> final(self)@.counters.dropped == u64::MAX,
    {
        self.counters.dropped = self.counters.dropped.saturating_add(dropped);
    }

    /// Count a request refused transiently.
    pub fn note_deferred(&mut self)
        requires
            old(self).well_formed(),
        ensures
            final(self).well_formed(),
            final(self)@ == (IndexView {
                counters: DedupCounters {
                    deferred: index_model::capped_sum(old(self)@.counters.deferred, 1),
                    ..old(self)@.counters
                },
                ..old(self)@
            }),
            old(self)@.counters.deferred + 1 <= u64::MAX ==> final(self)@.counters.deferred
                == old(self)@.counters.deferred + 1,
            old(self)@.counters.deferred + 1 > u64::MAX ==> final(self)@.counters.deferred == u64::MAX,
    {
        self.counters.deferred = self.counters.deferred.saturating_add(1);
    }

    /// Count a committed op whose batch could not be read back.
    pub fn note_unconfirmed_commit(&mut self)
        requires
            old(self).well_formed(),
        ensures
            final(self).well_formed(),
            final(self)@ == (IndexView {
                counters: DedupCounters {
                    unconfirmed_commits: index_model::capped_sum(
                        old(self)@.counters.unconfirmed_commits,
                        1,
                    ),
                    ..old(self)@.counters
                },
                ..old(self)@
            }),
            old(self)@.counters.unconfirmed_commits + 1 <= u64::MAX ==> final(self)@.counters.unconfirmed_commits
                == old(self)@.counters.unconfirmed_commits + 1,
            old(self)@.counters.unconfirmed_commits + 1 > u64::MAX ==> final(self)@.counters.unconfirmed_commits == u64::MAX,
    {
        self.counters.unconfirmed_commits = self.counters.unconfirmed_commits.saturating_add(1);
    }

    /// Committed entries as `(key, offset, timestamp, op)`, sorted.
    /// Diagnostics only.
    pub fn entries_sorted(&self) -> (entries: Vec<(u128, u64, u64, u64)>)
        ensures
            index_model::lists(self@.committed, entries@),
            entries@ == index_model::sorted_entries(self@.committed),
            forall|i: int, j: int|
                0 <= i < j < entries@.len() ==> (#[trigger] entries@[i]).0 < (
                #[trigger] entries@[j]).0,
            forall|i: int|
                0 <= i < entries@.len() ==> {
                    &&& self@.committed.contains_key((#[trigger] entries@[i]).0)
                    &&& self@.committed[entries@[i].0].offset == entries@[i].1
                    &&& self@.committed[entries@[i].0].timestamp == entries@[i].2
                    &&& self@.committed[entries@[i].0].op == entries@[i].3
                },
            forall|key: u128| #[trigger]
                self@.committed.contains_key(key) ==> exists|i: int|
                    0 <= i < entries@.len() && (#[trigger] entries@[i]).0 == key,
    {
        let mut sorted: BTreeMap<u128, DedupEntry> = BTreeMap::new();
        let ghost keys = vstd::std_specs::iter::IteratorSpec::remaining(
            &self.committed.keys(),
        ).unref();
        for key in it: self.committed.keys()
            invariant
                it.seq().unref() == keys,
                forall|other: u128| #[trigger]
                    sorted@.contains_key(other) <==> keys.take(it.index() as int).contains(other),
                forall|other: u128| #[trigger]
                    sorted@.contains_key(other) ==> sorted@[other] == self.committed@[other],
                keys.to_set() == self.committed@.dom(),
        {
            proof {
                lemma_take_contains(keys, it.index() as int);
                assert(keys[it.index() as int] == *key);
                assert(keys.to_set().contains(*key));
            }
            if let Some(entry) = self.committed.get(key) {
                sorted.insert(*key, *entry);
            }
        }
        proof {
            assert(keys.take(keys.len() as int) =~= keys);
            assert forall|key: u128| #[trigger]
                sorted@.contains_key(key) <==> self.committed@.contains_key(key) by {
                assert(keys.to_set().contains(key) <==> keys.contains(key));
            }
            assert(sorted@ =~= self.committed@);
        }
        let mut entries: Vec<(u128, u64, u64, u64)> = Vec::new();
        let pairs = sorted.iter();
        let ghost all = vstd::std_specs::iter::IteratorSpec::remaining(&pairs);
        let ghost ordered = all.map_values(|pair: (&u128, &DedupEntry)| *pair.0);
        assert(vstd::std_specs::btree::increasing_seq(ordered));
        for pair in it: pairs
            invariant
                it.seq() == all,
                entries@.len() == it.index(),
                forall|i: int|
                    0 <= i < entries@.len() ==> {
                        let (key, offset, timestamp, op) = #[trigger] entries@[i];
                        &&& key == *all[i].0
                        &&& all[i].1@ == (Occurrence { offset, timestamp, op })
                    },
        {
            let (key, entry) = pair;
            entries.push((*key, entry.offset, entry.timestamp, entry.op));
        }
        proof {
            lemma_increasing(ordered);
            assert forall|i: int, j: int| 0 <= i < j < entries@.len() implies (
            #[trigger] entries@[i]).0 < (#[trigger] entries@[j]).0 by {
                assert(ordered[i] == entries@[i].0);
                assert(ordered[j] == entries@[j].0);
            }
            assert forall|i: int| 0 <= i < entries@.len() implies {
                let (key, offset, timestamp, op) = #[trigger] entries@[i];
                &&& self@.committed.contains_key(key)
                &&& self@.committed[key] == (Occurrence { offset, timestamp, op })
            } by {
                assert(sorted@.contains_key(*all[i].0) && sorted@[*all[i].0] == *all[i].1);
            }
            assert forall|key: u128| #[trigger] self@.committed.contains_key(key) implies exists|
                i: int,
            |
                0 <= i < entries@.len() && (#[trigger] entries@[i]).0 == key by {
                assert(sorted@.contains_key(key));
                let i = choose|i: int| 0 <= i < all.len() && all[i] == (&key, &sorted@[key]);
                assert(entries@[i].0 == key);
            }
            index_model::lemma_listing_is_unique(
                self@.committed,
                entries@,
                index_model::sorted_entries(self@.committed),
            );
        }
        entries
    }

    /// The bytes the fingerprint is taken over: of each committed entry its
    /// key, offset and timestamp, by increasing key.
    pub fn fingerprint_bytes(&self) -> (bytes: Vec<u8>)
        ensures
            bytes@ == index_model::fingerprint_material(
                index_model::sorted_entries(self@.committed),
            ),
    {
        let entries = self.entries_sorted();
        let mut bytes: Vec<u8> = Vec::new();
        let mut i: usize = 0;
        while i < entries.len()
            invariant
                i <= entries@.len(),
                bytes@ == index_model::fingerprint_material(entries@.take(i as int)),
            decreases entries@.len() - i,
        {
            let (key, offset, timestamp, op) = entries[i];
            wire::push_le(&mut bytes, key, 16);
            wire::push_le(&mut bytes, offset as u128, 8);
            wire::push_le(&mut bytes, timestamp as u128, 8);
            assert(entries@.take(i + 1).drop_last() =~= entries@.take(i as int));
            i += 1;
        }
        assert(entries@.take(entries@.len() as int) =~= entries@);
        bytes
    }

    /// Order-independent digest of the committed keys (key, offset,
    /// timestamp). Replicas at the same commit hold the same committed set.
    pub fn fingerprint(&self) -> (digest: u128)
        ensures
            digest == hash::xxh3_128_digest(
                index_model::fingerprint_material(index_model::sorted_entries(self@.committed)),
            ),
    {
        hash::xxh3_128(self.fingerprint_bytes().as_slice())
    }

    /// Hand out the next recording number.
    fn next_seq(&mut self) -> (seq: u64)
        requires
            old(self).next_seq < u64::MAX,
        ensures
            seq == old(self).next_seq,
            *final(self) == (MessageDedupIndex {
                next_seq: (old(self).next_seq + 1) as u64,
                ..*old(self)
            }),
    {
        let seq = self.next_seq;
        self.next_seq = self.next_seq + 1;
        seq
    }

    /// Note an appended, uncommitted occurrence of `key`.
    ///
    /// Re-recording the same op updates the entry in place: the primary
    /// records at admission with a provisional offset, then again at append
    /// with the stamped one.
    pub fn record_pending(&mut self, key: DedupKey, offset: u64, timestamp: u64, op: u64)
        requires
            old(self).well_formed(),
            old(self)@.recordings < u64::MAX || old(self)@.pending_by(key@, op),
        ensures
            final(self).well_formed(),
            final(self)@ == old(self)@.record_pending(key@, offset, timestamp, op),
    {
        let raw = key.as_raw();
        let ghost start = self@;
        let ghost pending = self.pending@;
        let ghost by_op = self.pending_by_op@;
        let known: Option<DedupEntry> = match self.pending.get(&raw) {
            Some(entry) => Some(*entry),
            None => None,
        };
        if let Some(existing) = known {
            if existing.op == op {
                let entry = DedupEntry { offset, timestamp, op, seq: existing.seq };
                self.pending.insert(raw, entry);
                assert(self@ =~= start.record_pending(key@, offset, timestamp, op));
                return ;
            }
        }
        let seq = self.next_seq();
        let entry = DedupEntry { offset, timestamp, op, seq };
        self.pending.insert(raw, entry);
        let mut items: Vec<(u128, u64)> = match self.pending_by_op.remove(&op) {
            Some(items) => items,
            None => Vec::new(),
        };
        let ghost items_before = items@;
        items.push((raw, seq));
        let ghost items_after = items@;
        self.pending_by_op.insert(op, items);
        proof {
            assert(self@ =~= start.record_pending(key@, offset, timestamp, op));
            assert(items_after[items_before.len() as int] == (raw, seq));
            assert forall|other: u128| #[trigger] self.pending@.contains_key(other) implies {
                let entry = self.pending@[other];
                &&& self.pending_by_op@.contains_key(entry.op)
                &&& self.pending_by_op@[entry.op]@.contains((other, entry.seq))
            } by {
                if other != raw {
                    let entry = pending[other];
                    assert(by_op[entry.op]@.contains((other, entry.seq)));
                    if entry.op == op {
                        let i = choose|i: int|
                            0 <= i < items_before.len() && items_before[i] == (other, entry.seq);
                        assert(items_after[i] == (other, entry.seq));
                    }
                }
            }
            assert forall|op2: u64, i: int|
                #![trigger self.pending_by_op@[op2]@[i]]
                self.pending_by_op@.contains_key(op2) && 0 <= i
                    < self.pending_by_op@[op2]@.len() implies {
                let item = self.pending_by_op@[op2]@[i];
                &&& item.1 < self.next_seq
                &&& self.pending@.contains_key(item.0) && self.pending@[item.0].seq == item.1
                    ==> self.pending@[item.0].op == op2
            } by {
                if op2 == op {
                    if i < items_before.len() {
                        assert(by_op[op]@[i] == items_before[i]);
                    }
                } else {
                    assert(by_op[op2]@[i] == self.pending_by_op@[op2]@[i]);
                }
            }
        }
    }

    /// Index a committed occurrence of `key`. Only committed content may
    /// reach this: the commit walk, or a rebuild from committed storage.
    pub fn record_committed(
        &mut self,
        key: DedupKey,
        offset: u64,
        timestamp: u64,
        op: u64,
        window_micros: u64,
    )
        requires
            old(self).well_formed(),
            old(self)@.recordings < u64::MAX || old(self)@.committed_at(key@, offset),
        ensures
            final(self).well_formed(),
            final(self)@ == old(self)@.record_committed(key@, offset, timestamp, op, window_micros),
    {
        let raw = key.as_raw();
        let ghost start = self@;
        let ghost queue = self.order@;
        let ghost committed = self.committed@;
        if timestamp > self.newest_timestamp {
            self.newest_timestamp = timestamp;
        }
        let known: Option<DedupEntry> = match self.committed.get(&raw) {
            Some(entry) => Some(*entry),
            None => None,
        };
        if let Some(existing) = known {
            if existing.offset == offset {
                if existing.op == REBUILT_OP {
                    let learned = DedupEntry { op, ..existing };
                    self.committed.insert(raw, learned);
                    proof {
                        lemma_live_keys_agree(queue, committed, self.committed@);
                        assert(self.committed@.dom() =~= committed.dom());
                    }
                }
                assert(self@ =~= start.record_committed(
                    key@,
                    offset,
                    timestamp,
                    op,
                    window_micros,
                ));
                return ;
            }
        }
        let seq = self.next_seq();
        let entry = DedupEntry { offset, timestamp, op, seq };
        self.committed.insert(raw, entry);
        self.order.push_back((seq, raw));
        proof {
            lemma_live_keys_replace(queue, committed, raw, entry);
            lemma_live_keys_push(queue, (seq, raw), self.committed@);
            assert(self.order@ =~= queue.push((seq, raw)));
            assert(self.order@[queue.len() as int] == (seq, raw));
            assert forall|other: u128| #[trigger]
                self.committed@.contains_key(other) implies self.order@.contains(
                (self.committed@[other].seq, other),
            ) by {
                if other != raw {
                    let item = (committed[other].seq, other);
                    let i = choose|i: int| 0 <= i < queue.len() && queue[i] == item;
                    assert(self.order@[i] == item);
                }
            }
            assert(self@ =~= start.with_newest(key@, Occurrence { offset, timestamp, op }));
        }
        self.evict(window_micros);
    }

    /// Take the lists of `ops` away, and the pending entries they account for.
    fn forget_ops(&mut self, ops: &Vec<u64>)
        requires
            old(self).pending_linked(),
            ops@.no_duplicates(),
            forall|i: int|
                0 <= i < ops@.len() ==> old(self).pending_by_op@.contains_key(#[trigger] ops@[i]),
        ensures
            final(self).pending_linked(),
            forall|key: u128| #[trigger]
                final(self).pending@.contains_key(key) <==> old(self).pending@.contains_key(key)
                    && !ops@.contains(old(self).pending@[key].op),
            forall|key: u128| #[trigger]
                final(self).pending@.contains_key(key) ==> final(self).pending@[key] == old(
                    self,
                ).pending@[key],
            final(self).committed == old(self).committed,
            final(self).order == old(self).order,
            final(self).next_seq == old(self).next_seq,
            final(self).newest_timestamp == old(self).newest_timestamp,
            final(self).entries_max == old(self).entries_max,
            final(self).counters == old(self).counters,
    {
        let ghost start = *self;
        let mut i: usize = 0;
        while i < ops.len()
            invariant
                i <= ops@.len(),
                ops@.no_duplicates(),
                self.pending_linked(),
                forall|j: int|
                    i <= j < ops@.len() ==> self.pending_by_op@.contains_key(#[trigger] ops@[j]),
                forall|key: u128| #[trigger]
                    self.pending@.contains_key(key) <==> start.pending@.contains_key(key)
                        && !ops@.take(i as int).contains(start.pending@[key].op),
                forall|key: u128| #[trigger]
                    self.pending@.contains_key(key) ==> self.pending@[key] == start.pending@[key],
                self.committed == start.committed,
                self.order == start.order,
                self.next_seq == start.next_seq,
                self.newest_timestamp == start.newest_timestamp,
                self.entries_max == start.entries_max,
                self.counters == start.counters,
            decreases ops@.len() - i,
        {
            let op = ops[i];
            let ghost before = self.pending@;
            let ghost by_op = self.pending_by_op@;
            assert(by_op.contains_key(op));
            let items: Vec<(u128, u64)> = match self.pending_by_op.remove(&op) {
                Some(items) => items,
                None => Vec::new(),
            };
            assert(items@ == by_op[op]@);
            assert(self.pending_by_op@ == by_op.remove(op));
            let mut n: usize = 0;
            while n < items.len()
                invariant
                    n <= items@.len(),
                    i < ops@.len(),
                    op == ops@[i as int],
                    items@ == by_op[op]@,
                    by_op.contains_key(op),
                    self.pending_by_op@ == by_op.remove(op),
                    forall|key: u128| #[trigger]
                        before.contains_key(key) ==> by_op.contains_key(before[key].op)
                            && by_op[before[key].op]@.contains((key, before[key].seq)),
                    forall|op2: u64, m: int|
                        #![trigger by_op[op2]@[m]]
                        by_op.contains_key(op2) && 0 <= m < by_op[op2]@.len() ==> {
                            let item = by_op[op2]@[m];
                            &&& item.1 < self.next_seq
                            &&& before.contains_key(item.0) && before[item.0].seq == item.1
                                ==> before[item.0].op == op2
                        },
                    forall|key: u128| #[trigger]
                        self.pending@.contains_key(key) ==> before.contains_key(key)
                            && self.pending@[key] == before[key],
                    forall|key: u128| #[trigger]
                        before.contains_key(key) && !self.pending@.contains_key(key)
                            ==> before[key].op == op,
                    forall|m: int|
                        0 <= m < n ==> !(self.pending@.contains_key((#[trigger] items@[m]).0)
                            && self.pending@[items@[m].0].seq == items@[m].1),
                    self.committed == start.committed,
                    self.order == start.order,
                    self.next_seq == start.next_seq,
                    self.newest_timestamp == start.newest_timestamp,
                    self.entries_max == start.entries_max,
                    self.counters == start.counters,
                decreases items@.len() - n,
            {
                let (key, seq) = items[n];
                assert(by_op[op]@[n as int] == (key, seq));
                let owned = match self.pending.get(&key) {
                    Some(entry) => entry.seq == seq,
                    None => false,
                };
                if owned {
                    self.pending.remove(&key);
                }
                n += 1;
            }
            proof {
                assert forall|key: u128| #[trigger]
                    self.pending@.contains_key(key) implies self.pending@[key].op != op by {
                    if before[key].op == op {
                        let m = choose|m: int|
                            0 <= m < items@.len() && items@[m] == (key, before[key].seq);
                        assert(items@[m].0 == key);
                    }
                }
                assert(ops@.take(i + 1) =~= ops@.take(i as int).push(op));
                assert forall|key: u128| #[trigger]
                    self.pending@.contains_key(key) <==> start.pending@.contains_key(key)
                        && !ops@.take(i + 1).contains(start.pending@[key].op) by {
                    let entry = start.pending@[key];
                    if ops@.take(i as int).contains(entry.op) {
                        let m = choose|m: int|
                            0 <= m < i && ops@.take(i as int)[m] == entry.op;
                        assert(ops@.take(i + 1)[m] == entry.op);
                    }
                    assert(ops@.take(i + 1)[i as int] == op);
                    if before.contains_key(key) && !self.pending@.contains_key(key) {
                        assert(entry.op == op);
                    }
                }
                assert forall|op2: u64, m: int|
                    #![trigger self.pending_by_op@[op2]@[m]]
                    self.pending_by_op@.contains_key(op2) && 0 <= m
                        < self.pending_by_op@[op2]@.len() implies {
                    let item = self.pending_by_op@[op2]@[m];
                    &&& item.1 < self.next_seq
                    &&& self.pending@.contains_key(item.0) && self.pending@[item.0].seq == item.1
                        ==> self.pending@[item.0].op == op2
                } by {
                    assert(by_op[op2]@[m] == self.pending_by_op@[op2]@[m]);
                }
            }
            i += 1;
        }
        assert(ops@.take(ops@.len() as int) =~= ops@);
    }

    /// The ops that hold pending recordings, in increasing order.
    fn pending_ops(&self) -> (ops: Vec<u64>)
        ensures
            ops@.no_duplicates(),
            forall|op: u64| #[trigger]
                ops@.contains(op) <==> self.pending_by_op@.contains_key(op),
    {
        let mut ops: Vec<u64> = Vec::new();
        let ghost all = vstd::std_specs::iter::IteratorSpec::remaining(
            &self.pending_by_op.keys(),
        ).unref();
        for op in it: self.pending_by_op.keys()
            invariant
                it.seq().unref() == all,
                ops@ == all.take(it.index() as int),
        {
            ops.push(*op);
            assert(all.take(it.index() + 1) =~= all.take(it.index() as int).push(*op));
        }
        proof {
            assert(ops@ =~= all);
            assert(all.to_set() == self.pending_by_op@.dom());
            assert forall|op: u64| #[trigger]
                ops@.contains(op) <==> self.pending_by_op@.contains_key(op) by {
                assert(all.to_set().contains(op) <==> all.contains(op));
            }
        }
        ops
    }

    /// Taking the front item off the queue, and its entry out of the map when
    /// the item is live.
    proof fn lemma_pop_front(
        queue: Seq<(u64, u128)>,
        committed: Map<u128, DedupEntry>,
        next_seq: u64,
    )
        requires
            queue.len() > 0,
            numbered(queue, next_seq),
            forall|key: u128| #[trigger]
                committed.contains_key(key) ==> queue.contains((committed[key].seq, key)),
        ensures
            numbered(queue.drop_first(), next_seq),
            is_live(committed, queue[0]) ==> {
                let key = queue[0].1;
                &&& live_keys(queue, committed)[0] == key
                &&& live_keys(queue, committed).len() > 0
                &&& live_keys(queue.drop_first(), committed.remove(key)) == live_keys(
                    queue,
                    committed,
                ).drop_first()
                &&& forall|other: u128| #[trigger]
                    committed.remove(key).contains_key(other) ==> queue.drop_first().contains(
                        (committed.remove(key)[other].seq, other),
                    )
            },
            !is_live(committed, queue[0]) ==> {
                &&& live_keys(queue.drop_first(), committed) == live_keys(queue, committed)
                &&& forall|other: u128| #[trigger]
                    committed.contains_key(other) ==> queue.drop_first().contains(
                        (committed[other].seq, other),
                    )
            },
    {
        let rest = queue.drop_first();
        let key = queue[0].1;
        assert forall|i: int, j: int| 0 <= i < j < rest.len() implies #[trigger] rest[i].0
            < #[trigger] rest[j].0 by {
            assert(rest[i] == queue[i + 1] && rest[j] == queue[j + 1]);
        }
        assert forall|i: int| 0 <= i < rest.len() implies #[trigger] rest[i].0 < next_seq by {
            assert(rest[i] == queue[i + 1]);
        }
        assert forall|other: u128|
            #![trigger committed.contains_key(other)]
            committed.contains_key(other) && !(is_live(committed, queue[0]) && other
                == key) implies rest.contains((committed[other].seq, other)) by {
            let item = (committed[other].seq, other);
            let i = choose|i: int| 0 <= i < queue.len() && queue[i] == item;
            assert(i > 0);
            assert(rest[i - 1] == item);
        }
        if is_live(committed, queue[0]) {
            assert forall|i: int| 0 <= i < rest.len() implies is_live(committed, #[trigger] rest[i])
                == is_live(committed.remove(key), rest[i]) by {
                assert(rest[i] == queue[i + 1]);
            }
            lemma_live_keys_agree(rest, committed, committed.remove(key));
            assert(live_keys(queue, committed).drop_first() =~= live_keys(rest, committed));
        }
    }

    /// Evict by age, then by the entry cap, then tidy the queue.
    fn evict(&mut self, window_micros: u64)
        requires
            old(self).committed_linked(),
            old(self).pending_linked(),
            old(self).entries_max >= 1,
        ensures
            final(self).well_formed(),
            final(self)@ == old(self)@.evict(window_micros),
    {
        let cutoff = self.newest_timestamp.saturating_sub(window_micros);
        let ghost start = self@;
        assert(cutoff == start.cutoff(window_micros));
        while self.order.len() > 0
            invariant_except_break
                self@.drop_expired(cutoff) == start.drop_expired(cutoff),
            invariant
                self.committed_linked(),
                self.pending_linked(),
                self.entries_max >= 1,
                self.entries_max == start.entries_max,
            ensures
                self@ == start.drop_expired(cutoff),
            decreases self.order@.len(),
        {
            let ghost before = self@;
            let ghost queue = self.order@;
            let ghost committed = self.committed@;
            proof {
                self.lemma_order();
                Self::lemma_pop_front(queue, committed, self.next_seq);
            }
            let (seq, key) = self.order[0];
            let live: Option<u64> = match self.committed.get(&key) {
                Some(entry) => if entry.seq == seq {
                    Some(entry.timestamp)
                } else {
                    None
                },
                None => None,
            };
            match live {
                Some(timestamp) => {
                    if timestamp >= cutoff {
                        break ;
                    }
                    self.committed.remove(&key);
                    self.order.pop_front();
                    assert(self.order@ =~= queue.drop_first());
                    assert(self@ =~= before.drop_oldest());
                },
                None => {
                    self.order.pop_front();
                    assert(self.order@ =~= queue.drop_first());
                    assert(self@ =~= before);
                },
            }
        }
        let ghost aged = self@;
        while self.committed.len() > self.entries_max
            invariant
                self@.drop_excess(cutoff) == aged.drop_excess(cutoff),
                self.committed_linked(),
                self.pending_linked(),
                self.entries_max >= 1,
            decreases self.order@.len(),
        {
            let ghost before = self@;
            let ghost queue = self.order@;
            let ghost committed = self.committed@;
            proof {
                self.lemma_order();
                assert(queue.len() > 0) by {
                    if queue.len() == 0 {
                        assert(live_keys(queue, committed).len() == 0);
                    }
                }
                Self::lemma_pop_front(queue, committed, self.next_seq);
            }
            let (seq, key) = self.order[0];
            let live: Option<u64> = match self.committed.get(&key) {
                Some(entry) => if entry.seq == seq {
                    Some(entry.timestamp)
                } else {
                    None
                },
                None => None,
            };
            self.order.pop_front();
            assert(self.order@ =~= queue.drop_first());
            match live {
                Some(timestamp) => {
                    if timestamp >= cutoff {
                        self.counters.evicted_live = self.counters.evicted_live.saturating_add(1);
                    }
                    self.committed.remove(&key);
                    assert(self@.committed =~= before.drop_oldest().committed);
                    assert(self@.drop_excess(cutoff) == before.drop_excess(cutoff));
                },
                None => {
                    assert(self@ =~= before);
                },
            }
        }
        proof {
            self.lemma_order();
        }
        self.compact_order_if_sparse();
    }

    /// Stale queue items are left behind by replacement. Keep them from
    /// outgrowing the live entries so memory stays proportional to the index,
    /// not to its history.
    fn compact_order_if_sparse(&mut self)
        requires
            old(self).committed_linked(),
        ensures
            final(self)@ == old(self)@,
            final(self).committed_linked(),
            old(self).pending_linked() ==> final(self).pending_linked(),
            final(self).committed@ == old(self).committed@,
            final(self).entries_max == old(self).entries_max,
            final(self).order@.len() <= queue_bound(final(self).committed@.len()),
    {
        let queued = self.order.len();
        let entries = self.committed.len();
        if queued <= COMPACTION_FLOOR || entries > usize::MAX / 2 || queued <= entries * 2 {
            return ;
        }
        let mut kept: VecDeque<(u64, u128)> = VecDeque::new();
        let mut i: usize = 0;
        while i < queued
            invariant
                i <= queued,
                queued == self.order@.len(),
                *self == *old(self),
                self.committed_linked(),
                live_keys(kept@, self.committed@) == live_keys(
                    self.order@.take(i as int),
                    self.committed@,
                ),
                live_keys(kept@, self.committed@).len() == kept@.len(),
                numbered(kept@, self.next_seq),
                forall|j: int| 0 <= j < kept@.len() && i < queued ==> #[trigger] kept@[j].0 < self.order@[i as int].0,
                forall|j: int|
                    0 <= j < i && is_live(self.committed@, #[trigger] self.order@[j])
                        ==> kept@.contains(self.order@[j]),
            decreases queued - i,
        {
            let item = self.order[i];
            let (seq, key) = item;
            let live = match self.committed.get(&key) {
                Some(entry) => entry.seq == seq,
                None => false,
            };
            let ghost kept_before = kept@;
            proof {
                assert(self.order@.take(i + 1) =~= self.order@.take(i as int).push(item));
                lemma_live_keys_push(self.order@.take(i as int), item, self.committed@);
                lemma_live_keys_push(kept@, item, self.committed@);
            }
            if live {
                kept.push_back(item);
                assert(kept@[kept_before.len() as int] == item);
                assert forall|j: int|
                    0 <= j < i + 1 && is_live(
                        self.committed@,
                        #[trigger] self.order@[j],
                    ) implies kept@.contains(self.order@[j]) by {
                    if j < i {
                        let m = choose|m: int|
                            0 <= m < kept_before.len() && kept_before[m] == self.order@[j];
                        assert(kept@[m] == self.order@[j]);
                    }
                }
            }
            i += 1;
        }
        proof {
            assert(self.order@.take(queued as int) =~= self.order@);
            self.lemma_order();
            assert forall|key: u128| #[trigger]
                self.committed@.contains_key(key) implies kept@.contains(
                (self.committed@[key].seq, key),
            ) by {
                let item = (self.committed@[key].seq, key);
                let j = choose|j: int| 0 <= j < self.order@.len() && self.order@[j] == item;
                assert(is_live(self.committed@, self.order@[j]));
            }
        }
        self.order = kept;
    }
}

} // verus!
