//! What the statistics of a node add up to.

use vstd::prelude::*;

use crate::metadata;
use crate::metadata::{Partition, Stream, Streams, Topic};
use crate::responses;
use crate::stats;

verus! {

// ---------------------------------------------------------------------------
// Slots
// ---------------------------------------------------------------------------

/// The values held by slots are those of the occupied ones, in slot order:
/// `places` are the numbers of the occupied slots, increasing.
pub proof fn lemma_occupied_meaning<T>(slots: Seq<Option<T>>) -> (places: Seq<int>)
    ensures
        places.len() == metadata::occupied(slots).len(),
        forall|p: int, q: int| 0 <= p < q < places.len() ==> places[p] < places[q],
        forall|p: int|
            0 <= p < places.len() ==> {
                &&& 0 <= #[trigger] places[p] < slots.len()
                &&& slots[places[p]] == Some(metadata::occupied(slots)[p])
            },
        forall|i: int|
            0 <= i < slots.len() && (#[trigger] slots[i]) is Some ==> places.contains(i),
    decreases slots.len(),
{
    if slots.len() == 0 {
        Seq::empty()
    } else {
        let front = slots.drop_last();
        let last = slots.len() - 1;
        let before = lemma_occupied_meaning(front);
        assert forall|i: int| 0 <= i < last && (#[trigger] slots[i]) is Some implies before.contains(
            i,
        ) by {
            assert(front[i] == slots[i]);
        }
        if slots[last] is Some {
            let places = before.push(last);
            assert forall|p: int| 0 <= p < places.len() implies {
                &&& 0 <= #[trigger] places[p] < slots.len()
                &&& slots[places[p]] == Some(metadata::occupied(slots)[p])
            } by {
                if p < before.len() {
                    assert(front[before[p]] == slots[before[p]]);
                }
            }
            assert forall|i: int| 0 <= i < slots.len() && (
            #[trigger] slots[i]) is Some implies places.contains(i) by {
                if i < last {
                    let p = choose|p: int| 0 <= p < before.len() && before[p] == i;
                    assert(places[p] == i);
                } else {
                    assert(places[before.len() as int] == i);
                }
            }
            places
        } else {
            assert forall|p: int| 0 <= p < before.len() implies slots[#[trigger] before[p]] == Some(
                metadata::occupied(slots)[p],
            ) by {
                assert(front[before[p]] == slots[before[p]]);
            }
            before
        }
    }
}

// ---------------------------------------------------------------------------
// Sums
// ---------------------------------------------------------------------------

/// Message bytes add up: the bytes of two runs of streams are those of the one
/// plus those of the other, one stream has its own, and none have none.
pub proof fn lemma_bytes_add_up(left: Seq<Stream>, right: Seq<Stream>)
    ensures
        stats::stream_bytes(left + right) == stats::stream_bytes(left) + stats::stream_bytes(right),
        left.len() == 0 ==> stats::stream_bytes(left) == 0,
        left.len() == 1 ==> stats::stream_bytes(left) == left[0].stats.size_bytes,
    decreases right.len(),
{
    reveal_with_fuel(stats::stream_bytes, 2);
    if right.len() == 0 {
        assert(left + right =~= left);
    } else {
        lemma_bytes_add_up(left, right.drop_last());
        assert((left + right).drop_last() =~= left + right.drop_last());
    }
}

/// Messages add up likewise.
pub proof fn lemma_messages_add_up(left: Seq<Stream>, right: Seq<Stream>)
    ensures
        stats::stream_messages(left + right) == stats::stream_messages(left)
            + stats::stream_messages(right),
        left.len() == 0 ==> stats::stream_messages(left) == 0,
        left.len() == 1 ==> stats::stream_messages(left) == left[0].stats.messages_count,
    decreases right.len(),
{
    reveal_with_fuel(stats::stream_messages, 2);
    if right.len() == 0 {
        assert(left + right =~= left);
    } else {
        lemma_messages_add_up(left, right.drop_last());
        assert((left + right).drop_last() =~= left + right.drop_last());
    }
}

/// Topics add up: one stream has as many as it has occupied slots.
pub proof fn lemma_topics_add_up(left: Seq<Stream>, right: Seq<Stream>)
    ensures
        stats::stream_topics(left + right) == stats::stream_topics(left) + stats::stream_topics(
            right,
        ),
        left.len() == 0 ==> stats::stream_topics(left) == 0,
        left.len() == 1 ==> stats::stream_topics(left) == metadata::occupied(
            left[0].topics.slots@,
        ).len(),
    decreases right.len(),
{
    reveal_with_fuel(stats::stream_topics, 2);
    if right.len() == 0 {
        assert(left + right =~= left);
    } else {
        lemma_topics_add_up(left, right.drop_last());
        assert((left + right).drop_last() =~= left + right.drop_last());
    }
}

/// Partitions add up over topics: one topic has its own.
pub proof fn lemma_topic_partitions_add_up(left: Seq<Topic>, right: Seq<Topic>)
    ensures
        stats::topic_partitions(left + right) == stats::topic_partitions(left)
            + stats::topic_partitions(right),
        left.len() == 0 ==> stats::topic_partitions(left) == 0,
        left.len() == 1 ==> stats::topic_partitions(left) == left[0].partitions@.len(),
    decreases right.len(),
{
    reveal_with_fuel(stats::topic_partitions, 2);
    if right.len() == 0 {
        assert(left + right =~= left);
    } else {
        lemma_topic_partitions_add_up(left, right.drop_last());
        assert((left + right).drop_last() =~= left + right.drop_last());
    }
}

/// Partitions add up over streams: one stream has those of its topics.
pub proof fn lemma_partitions_add_up(left: Seq<Stream>, right: Seq<Stream>)
    ensures
        stats::stream_partitions(left + right) == stats::stream_partitions(left)
            + stats::stream_partitions(right),
        left.len() == 0 ==> stats::stream_partitions(left) == 0,
        left.len() == 1 ==> stats::stream_partitions(left) == stats::topic_partitions(
            metadata::occupied(left[0].topics.slots@),
        ),
    decreases right.len(),
{
    reveal_with_fuel(stats::stream_partitions, 2);
    if right.len() == 0 {
        assert(left + right =~= left);
    } else {
        lemma_partitions_add_up(left, right.drop_last());
        assert((left + right).drop_last() =~= left + right.drop_last());
    }
}

/// Segments add up over partitions: one partition has the segments registered
/// for it, and one where fewer or none are.
pub proof fn lemma_partition_segments_add_up(
    streams: Streams,
    stream_id: usize,
    topic_id: usize,
    left: Seq<Partition>,
    right: Seq<Partition>,
)
    ensures
        stats::partition_segments(streams, stream_id, topic_id, left + right)
            == stats::partition_segments(streams, stream_id, topic_id, left)
            + stats::partition_segments(streams, stream_id, topic_id, right),
        left.len() == 0 ==> stats::partition_segments(streams, stream_id, topic_id, left) == 0,
        left.len() == 1 ==> match streams.stats_registry.at(stream_id, topic_id, left[0].id) {
            Some(counters) => {
                &&& counters.segments_count >= 1 ==> stats::partition_segments(
                    streams,
                    stream_id,
                    topic_id,
                    left,
                ) == counters.segments_count
                &&& counters.segments_count == 0 ==> stats::partition_segments(
                    streams,
                    stream_id,
                    topic_id,
                    left,
                ) == 1
            },
            None => stats::partition_segments(streams, stream_id, topic_id, left) == 1,
        },
    decreases right.len(),
{
    reveal_with_fuel(stats::partition_segments, 2);
    if right.len() == 0 {
        assert(left + right =~= left);
    } else {
        lemma_partition_segments_add_up(streams, stream_id, topic_id, left, right.drop_last());
        assert((left + right).drop_last() =~= left + right.drop_last());
    }
}

/// Segments add up over topics: one topic has those of its partitions.
pub proof fn lemma_topic_segments_add_up(
    streams: Streams,
    stream_id: usize,
    left: Seq<Topic>,
    right: Seq<Topic>,
)
    ensures
        stats::topic_segments(streams, stream_id, left + right) == stats::topic_segments(
            streams,
            stream_id,
            left,
        ) + stats::topic_segments(streams, stream_id, right),
        left.len() == 0 ==> stats::topic_segments(streams, stream_id, left) == 0,
        left.len() == 1 ==> stats::topic_segments(streams, stream_id, left)
            == stats::partition_segments(streams, stream_id, left[0].id, left[0].partitions@),
    decreases right.len(),
{
    reveal_with_fuel(stats::topic_segments, 2);
    if right.len() == 0 {
        assert(left + right =~= left);
    } else {
        lemma_topic_segments_add_up(streams, stream_id, left, right.drop_last());
        assert((left + right).drop_last() =~= left + right.drop_last());
    }
}

/// Segments add up over streams: one stream has those of its topics.
pub proof fn lemma_segments_add_up(streams: Streams, left: Seq<Stream>, right: Seq<Stream>)
    ensures
        stats::stream_segments(streams, left + right) == stats::stream_segments(streams, left)
            + stats::stream_segments(streams, right),
        left.len() == 0 ==> stats::stream_segments(streams, left) == 0,
        left.len() == 1 ==> stats::stream_segments(streams, left) == stats::topic_segments(
            streams,
            left[0].id,
            metadata::occupied(left[0].topics.slots@),
        ),
    decreases right.len(),
{
    reveal_with_fuel(stats::stream_segments, 2);
    if right.len() == 0 {
        assert(left + right =~= left);
    } else {
        lemma_segments_add_up(streams, left, right.drop_last());
        assert((left + right).drop_last() =~= left + right.drop_last());
    }
}

/// The bytes of a run of streams, folded from their sizes.
pub proof fn lemma_bytes_are_a_sum(items: Seq<Stream>)
    ensures
        stats::stream_bytes(items) == items.fold_left(
            0int,
            |sum: int, stream: Stream| sum + stream.stats.size_bytes,
        ),
        stats::stream_messages(items) == items.fold_left(
            0int,
            |sum: int, stream: Stream| sum + stream.stats.messages_count,
        ),
    decreases items.len(),
{
    if items.len() > 0 {
        lemma_bytes_are_a_sum(items.drop_last());
    }
}

/// The topics and partitions of a run of streams, folded from their counts.
pub proof fn lemma_counts_are_a_sum(items: Seq<Stream>)
    ensures
        stats::stream_topics(items) == items.fold_left(
            0int,
            |sum: int, stream: Stream| sum + stream.topics.values().len(),
        ),
        stats::stream_partitions(items) == items.fold_left(
            0int,
            |sum: int, stream: Stream|
                sum + stream.topics.values().fold_left(
                    0int,
                    |inner: int, topic: Topic| inner + topic.partitions@.len(),
                ),
        ),
    decreases items.len(),
{
    if items.len() > 0 {
        lemma_counts_are_a_sum(items.drop_last());
        lemma_topic_counts_are_a_sum(items.last().topics.values());
    }
}

proof fn lemma_topic_counts_are_a_sum(topics: Seq<Topic>)
    ensures
        stats::topic_partitions(topics) == topics.fold_left(
            0int,
            |inner: int, topic: Topic| inner + topic.partitions@.len(),
        ),
    decreases topics.len(),
{
    if topics.len() > 0 {
        lemma_topic_counts_are_a_sum(topics.drop_last());
    }
}

// ---------------------------------------------------------------------------
// Totals
// ---------------------------------------------------------------------------

/// Each total is the sum it stands for, or the largest value its field holds
/// where the sum is larger.
pub proof fn lemma_totals_meaning(streams: Streams)
    ensures
        ({
            let items = metadata::occupied(streams.items.slots@);
            let totals = stats::totals(streams);
            let topics = stats::stream_topics(items);
            let partitions = stats::stream_partitions(items);
            let segments = stats::stream_segments(streams, items);
            let bytes = stats::stream_bytes(items);
            let messages = stats::stream_messages(items);
            &&& items.len() <= u32::MAX ==> totals.streams_count == items.len()
            &&& topics <= u32::MAX ==> totals.topics_count == topics
            &&& topics > u32::MAX ==> totals.topics_count == u32::MAX
            &&& partitions <= u32::MAX ==> totals.partitions_count == partitions
            &&& partitions > u32::MAX ==> totals.partitions_count == u32::MAX
            &&& segments <= u32::MAX ==> totals.segments_count == segments
            &&& segments > u32::MAX ==> totals.segments_count == u32::MAX
            &&& bytes <= u64::MAX ==> totals.messages_size_bytes == bytes
            &&& bytes > u64::MAX ==> totals.messages_size_bytes == u64::MAX
            &&& messages <= u64::MAX ==> totals.messages_count == messages
            &&& messages > u64::MAX ==> totals.messages_count == u64::MAX
        }),
{
}

/// Everything can be counted exactly when there are at most as many streams,
/// topics of one stream and partitions of one topic as 32 bits count.
pub proof fn lemma_counts_fit_meaning(items: Seq<Stream>)
    ensures
        stats::counts_fit(items) <==> {
            &&& items.len() <= 0xffff_ffff
            &&& forall|i: int|
                0 <= i < items.len() ==> metadata::occupied(
                    (#[trigger] items[i]).topics.slots@,
                ).len() <= 0xffff_ffff
            &&& forall|i: int, t: int|
                #![trigger metadata::occupied(items[i].topics.slots@)[t]]
                0 <= i < items.len() && 0 <= t < metadata::occupied(items[i].topics.slots@).len()
                    ==> metadata::occupied(items[i].topics.slots@)[t].partitions@.len()
                    <= 0xffff_ffff
        },
{
    if stats::counts_fit(items) {
        assert forall|i: int| 0 <= i < items.len() implies metadata::occupied(
            (#[trigger] items[i]).topics.slots@,
        ).len() <= 0xffff_ffff by {
            assert(stats::stream_counts_fit(items[i]));
        }
        assert forall|i: int, t: int|
            #![trigger metadata::occupied(items[i].topics.slots@)[t]]
            0 <= i < items.len() && 0 <= t < metadata::occupied(
                items[i].topics.slots@,
            ).len() implies metadata::occupied(items[i].topics.slots@)[t].partitions@.len()
            <= 0xffff_ffff by {
            assert(stats::stream_counts_fit(items[i]));
            assert(items[i].topics.values()[t].partitions@.len() <= u32::MAX);
        }
    } else if items.len() <= 0xffff_ffff {
        let i = choose|i: int| 0 <= i < items.len() && !stats::stream_counts_fit(#[trigger] items[i]);
        if items[i].topics.values().len() <= u32::MAX {
            let topics = items[i].topics.values();
            let t = choose|t: int|
                0 <= t < topics.len() && (#[trigger] topics[t]).partitions@.len() > u32::MAX;
            assert(metadata::occupied(items[i].topics.slots@)[t].partitions@.len() > u32::MAX);
        }
    }
}

/// A partition reports the segments registered for it, and one where fewer or
/// none are registered.
pub proof fn lemma_reported_segments_meaning(stats: Option<metadata::PartitionStats>)
    ensures
        responses::reported_segments(stats) >= 1,
        stats is None ==> responses::reported_segments(stats) == 1,
        stats matches Some(counters) ==> responses::reported_segments(stats)
            >= counters.segments_count,
        stats matches Some(counters) ==> responses::reported_segments(stats) == 1
            || responses::reported_segments(stats) == counters.segments_count,
{
}

} // verus!
