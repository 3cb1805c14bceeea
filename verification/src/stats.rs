//! Statistics of a node.

use vstd::prelude::*;

use crate::error::{usize_to_u32, ResponseError};
use crate::metadata;
use crate::metadata::{Partition, Slots, Stream, Streams, Topic};
use crate::responses;
use crate::responses::{partition_segments_count, PartitionResponse};
use crate::stats_laws;

verus! {

// ---------------------------------------------------------------------------
// Sums
// ---------------------------------------------------------------------------

/// `value`, or the largest `u32` when it is larger.
pub open spec fn capped_u32(value: nat) -> u32 {
    if value > u32::MAX {
        u32::MAX
    } else {
        value as u32
    }
}

/// `value`, or the largest `u64` when it is larger.
pub open spec fn capped_u64(value: nat) -> u64 {
    if value > u64::MAX {
        u64::MAX
    } else {
        value as u64
    }
}

/// Segments that the partitions of one topic report.
pub open spec fn partition_segments(
    streams: Streams,
    stream_id: usize,
    topic_id: usize,
    partitions: Seq<Partition>,
) -> nat
    decreases partitions.len(),
{
    if partitions.len() == 0 {
        0
    } else {
        partition_segments(streams, stream_id, topic_id, partitions.drop_last())
            + responses::reported_segments(
            streams.stats_registry.at(stream_id, topic_id, partitions.last().id),
        ) as nat
    }
}

/// Segments that the topics of one stream report.
pub open spec fn topic_segments(streams: Streams, stream_id: usize, topics: Seq<Topic>) -> nat
    decreases topics.len(),
{
    if topics.len() == 0 {
        0
    } else {
        topic_segments(streams, stream_id, topics.drop_last()) + partition_segments(
            streams,
            stream_id,
            topics.last().id,
            topics.last().partitions@,
        )
    }
}

/// Segments that `items` report.
pub open spec fn stream_segments(streams: Streams, items: Seq<Stream>) -> nat
    decreases items.len(),
{
    if items.len() == 0 {
        0
    } else {
        stream_segments(streams, items.drop_last()) + topic_segments(
            streams,
            items.last().id,
            items.last().topics.values(),
        )
    }
}

/// Partitions of `topics`.
pub open spec fn topic_partitions(topics: Seq<Topic>) -> nat
    decreases topics.len(),
{
    if topics.len() == 0 {
        0
    } else {
        topic_partitions(topics.drop_last()) + topics.last().partitions@.len()
    }
}

/// Partitions of `items`.
pub open spec fn stream_partitions(items: Seq<Stream>) -> nat
    decreases items.len(),
{
    if items.len() == 0 {
        0
    } else {
        stream_partitions(items.drop_last()) + topic_partitions(items.last().topics.values())
    }
}

/// Topics of `items`.
pub open spec fn stream_topics(items: Seq<Stream>) -> nat
    decreases items.len(),
{
    if items.len() == 0 {
        0
    } else {
        stream_topics(items.drop_last()) + items.last().topics.values().len()
    }
}

/// Message bytes of `items`.
pub open spec fn stream_bytes(items: Seq<Stream>) -> nat
    decreases items.len(),
{
    if items.len() == 0 {
        0
    } else {
        stream_bytes(items.drop_last()) + items.last().stats.size_bytes as nat
    }
}

/// Messages of `items`.
pub open spec fn stream_messages(items: Seq<Stream>) -> nat
    decreases items.len(),
{
    if items.len() == 0 {
        0
    } else {
        stream_messages(items.drop_last()) + items.last().stats.messages_count as nat
    }
}

/// Whether the partitions of each topic can be counted on the wire.
pub open spec fn partition_counts_fit(topics: Seq<Topic>) -> bool {
    forall|i: int| 0 <= i < topics.len() ==> (#[trigger] topics[i]).partitions@.len() <= u32::MAX
}

/// Whether the topics of `stream`, and the partitions of each of them, can be
/// counted on the wire.
pub open spec fn stream_counts_fit(stream: Stream) -> bool {
    &&& stream.topics.values().len() <= u32::MAX
    &&& partition_counts_fit(stream.topics.values())
}

/// Whether everything there is to count can be counted on the wire.
pub open spec fn counts_fit(items: Seq<Stream>) -> bool {
    &&& items.len() <= u32::MAX
    &&& forall|i: int| 0 <= i < items.len() ==> stream_counts_fit(#[trigger] items[i])
}

// ---------------------------------------------------------------------------
// Totals
// ---------------------------------------------------------------------------

/// Totals for the whole node.
#[derive(Debug, Clone, Copy, PartialEq, Eq, Structural)]
pub struct StatsTotals {
    pub streams_count: u32,
    pub topics_count: u32,
    pub partitions_count: u32,
    pub segments_count: u32,
    pub messages_size_bytes: u64,
    pub messages_count: u64,
}

/// The totals of `streams`.
pub open spec fn totals(streams: Streams) -> StatsTotals {
    let items = streams.items.values();
    StatsTotals {
        streams_count: items.len() as u32,
        topics_count: capped_u32(stream_topics(items)),
        partitions_count: capped_u32(stream_partitions(items)),
        segments_count: capped_u32(stream_segments(streams, items)),
        messages_size_bytes: capped_u64(stream_bytes(items)),
        messages_count: capped_u64(stream_messages(items)),
    }
}

/// Values found among the first slots are found among all of them, in the same
/// places.
proof fn lemma_occupied_front<T>(slots: Seq<Option<T>>, n: int)
    requires
        0 <= n <= slots.len(),
    ensures
        metadata::occupied(slots.take(n)).len() <= metadata::occupied(slots).len(),
        forall|i: int|
            0 <= i < metadata::occupied(slots.take(n)).len() ==> metadata::occupied(
                slots.take(n),
            )[i] == metadata::occupied(slots)[i],
    decreases slots.len() - n,
{
    if n < slots.len() {
        assert(slots.take(n + 1).drop_last() =~= slots.take(n));
        lemma_occupied_front(slots, n + 1);
        let shorter = metadata::occupied(slots.take(n));
        let longer = metadata::occupied(slots.take(n + 1));
        assert forall|i: int| 0 <= i < shorter.len() implies shorter[i] == longer[i] by {}
    } else {
        assert(slots.take(n) =~= slots);
    }
}

/// Segments that the partitions of one topic report.
fn sum_partition_segments(
    streams: &Streams,
    stream_id: usize,
    topic_id: usize,
    partitions: &Vec<Partition>,
) -> (segments: u32)
    ensures
        segments == capped_u32(partition_segments(*streams, stream_id, topic_id, partitions@)),
{
    let mut segments: u32 = 0;
    let mut i: usize = 0;
    while i < partitions.len()
        invariant
            i <= partitions@.len(),
            segments == capped_u32(
                partition_segments(*streams, stream_id, topic_id, partitions@.take(i as int)),
            ),
        decreases partitions@.len() - i,
    {
        assert(partitions@.take(i + 1).drop_last() =~= partitions@.take(i as int));
        segments =
        segments.saturating_add(
            partition_segments_count(streams, stream_id, topic_id, partitions[i].id),
        );
        i += 1;
    }
    assert(partitions@.take(i as int) =~= partitions@);
    segments
}

/// Partitions of one stream and the segments they report.
fn sum_topics(streams: &Streams, stream_id: usize, topics: &Slots<Topic>) -> (result: Result<
    (u32, u32),
    ResponseError,
>)
    ensures
        match result {
            Ok((partitions_count, segments_count)) => {
                &&& partition_counts_fit(topics.values())
                &&& partitions_count == capped_u32(topic_partitions(topics.values()))
                &&& segments_count == capped_u32(
                    topic_segments(*streams, stream_id, topics.values()),
                )
            },
            Err(error) => {
                &&& !partition_counts_fit(topics.values())
                &&& error == ResponseError::CountOutOfRange
            },
        },
{
    let ghost slots = topics.slots@;
    let mut partitions_count: u32 = 0;
    let mut segments_count: u32 = 0;
    let mut i: usize = 0;
    while i < topics.slots.len()
        invariant
            i <= slots.len(),
            slots == topics.slots@,
            partition_counts_fit(metadata::occupied(slots.take(i as int))),
            partitions_count == capped_u32(
                topic_partitions(metadata::occupied(slots.take(i as int))),
            ),
            segments_count == capped_u32(
                topic_segments(*streams, stream_id, metadata::occupied(slots.take(i as int))),
            ),
        decreases slots.len() - i,
    {
        let ghost shorter = metadata::occupied(slots.take(i as int));
        assert(slots.take(i + 1).drop_last() =~= slots.take(i as int));
        if let Some(topic) = &topics.slots[i] {
            let ghost longer = shorter.push(*topic);
            assert(longer.drop_last() =~= shorter);
            assert(metadata::occupied(slots.take(i + 1)) == longer);
            let count = match usize_to_u32(topic.partitions.len()) {
                Ok(count) => count,
                Err(error) => {
                    proof {
                        lemma_occupied_front(slots, i + 1);
                        assert(longer[shorter.len() as int] == *topic);
                        assert(topics.values()[shorter.len() as int].partitions@.len()
                            > u32::MAX);
                    }
                    return Err(error);
                },
            };
            partitions_count = partitions_count.saturating_add(count);
            segments_count =
            segments_count.saturating_add(
                sum_partition_segments(streams, stream_id, topic.id, &topic.partitions),
            );
        }
        i += 1;
    }
    assert(slots.take(i as int) =~= slots);
    Ok((partitions_count, segments_count))
}

/// Totals for the whole node, from committed metadata plus the registered
/// counters.
///
/// Segments are summed per partition through the same floor the detail
/// responses apply, not from the stream's rolled-up counter: that counter only
/// advances once a partition materialises, which trails its commit.
pub fn aggregate_stats_totals(streams: &Streams) -> (result: Result<StatsTotals, ResponseError>)
    ensures
        match result {
            Ok(sums) => counts_fit(streams.items.values()) && sums == totals(*streams),
            Err(error) => !counts_fit(streams.items.values()) && error
                == ResponseError::CountOutOfRange,
        },
        result matches Ok(sums) ==> {
            let items = streams.items.values();
            let bytes = items.fold_left(
                0int,
                |sum: int, stream: Stream| sum + stream.stats.size_bytes,
            );
            let messages = items.fold_left(
                0int,
                |sum: int, stream: Stream| sum + stream.stats.messages_count,
            );
            let topics = items.fold_left(
                0int,
                |sum: int, stream: Stream| sum + stream.topics.values().len(),
            );
            let partitions = items.fold_left(
                0int,
                |sum: int, stream: Stream|
                    sum + stream.topics.values().fold_left(
                        0int,
                        |inner: int, topic: Topic| inner + topic.partitions@.len(),
                    ),
            );
            &&& sums.streams_count == items.len()
            &&& sums.messages_size_bytes == if bytes > u64::MAX {
                u64::MAX as int
            } else {
                bytes
            }
            &&& sums.messages_count == if messages > u64::MAX {
                u64::MAX as int
            } else {
                messages
            }
            &&& sums.topics_count == if topics > u32::MAX {
                u32::MAX as int
            } else {
                topics
            }
            &&& sums.partitions_count == if partitions > u32::MAX {
                u32::MAX as int
            } else {
                partitions
            }
        },
{
    proof {
        stats_laws::lemma_bytes_are_a_sum(streams.items.values());
        stats_laws::lemma_counts_are_a_sum(streams.items.values());
    }
    let ghost slots = streams.items.slots@;
    let mut topics_count: u32 = 0;
    let mut partitions_count: u32 = 0;
    let mut segments_count: u32 = 0;
    let mut messages_size_bytes: u64 = 0;
    let mut messages_count: u64 = 0;
    let mut i: usize = 0;
    while i < streams.items.slots.len()
        invariant
            i <= slots.len(),
            slots == streams.items.slots@,
            ({
                let items = metadata::occupied(slots.take(i as int));
                &&& forall|j: int| 0 <= j < items.len() ==> stream_counts_fit(#[trigger] items[j])
                &&& topics_count == capped_u32(stream_topics(items))
                &&& partitions_count == capped_u32(stream_partitions(items))
                &&& segments_count == capped_u32(stream_segments(*streams, items))
                &&& messages_size_bytes == capped_u64(stream_bytes(items))
                &&& messages_count == capped_u64(stream_messages(items))
            }),
        decreases slots.len() - i,
    {
        let ghost shorter = metadata::occupied(slots.take(i as int));
        assert(slots.take(i + 1).drop_last() =~= slots.take(i as int));
        if let Some(stream) = &streams.items.slots[i] {
            let ghost longer = shorter.push(*stream);
            assert(longer.drop_last() =~= shorter);
            assert(metadata::occupied(slots.take(i + 1)) == longer);
            proof {
                lemma_occupied_front(slots, i + 1);
                assert(longer[shorter.len() as int] == *stream);
                assert(streams.items.values()[shorter.len() as int] == *stream);
            }
            let count = match usize_to_u32(stream.topics.len()) {
                Ok(count) => count,
                Err(error) => {
                    assert(!stream_counts_fit(streams.items.values()[shorter.len() as int]));
                    return Err(error);
                },
            };
            topics_count = topics_count.saturating_add(count);
            messages_size_bytes = messages_size_bytes.saturating_add(stream.stats.size_bytes);
            messages_count = messages_count.saturating_add(stream.stats.messages_count);
            match sum_topics(streams, stream.id, &stream.topics) {
                Ok((partitions, segments)) => {
                    partitions_count = partitions_count.saturating_add(partitions);
                    segments_count = segments_count.saturating_add(segments);
                },
                Err(error) => {
                    assert(!stream_counts_fit(streams.items.values()[shorter.len() as int]));
                    return Err(error);
                },
            }
            assert forall|j: int| 0 <= j < longer.len() implies stream_counts_fit(
                #[trigger] longer[j],
            ) by {
                if j < shorter.len() {
                    assert(longer[j] == shorter[j]);
                }
            }
        }
        i += 1;
    }
    assert(slots.take(i as int) =~= slots);
    let streams_count = match usize_to_u32(streams.items.len()) {
        Ok(count) => count,
        Err(error) => {
            return Err(error);
        },
    };
    Ok(
        StatsTotals {
            streams_count,
            topics_count,
            partitions_count,
            segments_count,
            messages_size_bytes,
            messages_count,
        },
    )
}

// ---------------------------------------------------------------------------
// The response
// ---------------------------------------------------------------------------

/// What a probe of the system reported. The loads are kept as the bits of
/// their 32-bit floating-point values.
#[derive(Debug)]
pub struct SystemStats {
    pub process_id: u32,
    pub cpu_usage_bits: u32,
    pub total_cpu_usage_bits: u32,
    pub memory_usage: u64,
    pub total_memory: u64,
    pub available_memory: u64,
    pub run_time: u64,
    pub start_time: u64,
    pub read_bytes: u64,
    pub written_bytes: u64,
    pub hostname: String,
    pub os_name: String,
    pub os_version: String,
    pub kernel_version: String,
    pub threads_count: u32,
    pub free_disk_space: u64,
    pub total_disk_space: u64,
}

/// The version of the server, as text and, where it reads as one, as a number.
#[derive(Debug)]
pub struct ServerVersion {
    pub text: String,
    pub number: Option<u32>,
}

/// Statistics of a node on the wire. There are no cache metrics.
#[derive(Debug, PartialEq, Eq)]
pub struct StatsResponse {
    pub process_id: u32,
    pub cpu_usage_bits: u32,
    pub total_cpu_usage_bits: u32,
    pub memory_usage: u64,
    pub total_memory: u64,
    pub available_memory: u64,
    pub run_time: u64,
    pub start_time: u64,
    pub read_bytes: u64,
    pub written_bytes: u64,
    pub totals: StatsTotals,
    pub clients_count: u32,
    pub consumer_groups_count: u32,
    pub hostname: String,
    pub os_name: String,
    pub os_version: String,
    pub kernel_version: String,
    pub server_version: String,
    pub server_semver: Option<u32>,
    pub threads_count: u32,
    pub free_disk_space: u64,
    pub total_disk_space: u64,
}

impl StatsResponse {
    /// Whether this shows what `system` reported.
    pub open spec fn shows_system(self, system: SystemStats) -> bool {
        &&& self.process_id == system.process_id
        &&& self.cpu_usage_bits == system.cpu_usage_bits
        &&& self.total_cpu_usage_bits == system.total_cpu_usage_bits
        &&& self.memory_usage == system.memory_usage
        &&& self.total_memory == system.total_memory
        &&& self.available_memory == system.available_memory
        &&& self.run_time == system.run_time
        &&& self.start_time == system.start_time
        &&& self.read_bytes == system.read_bytes
        &&& self.written_bytes == system.written_bytes
        &&& self.hostname@ == system.hostname@
        &&& self.os_name@ == system.os_name@
        &&& self.os_version@ == system.os_version@
        &&& self.kernel_version@ == system.kernel_version@
        &&& self.threads_count == system.threads_count
        &&& self.free_disk_space == system.free_disk_space
        &&& self.total_disk_space == system.total_disk_space
    }
}

/// What a request for statistics is answered with.
pub open spec fn answers_stats(
    streams: Streams,
    consumer_groups_count: usize,
    clients_count: u32,
    system: SystemStats,
    version: ServerVersion,
    result: Result<StatsResponse, ResponseError>,
) -> bool {
    match result {
        Ok(response) => {
            &&& counts_fit(streams.items.values())
            &&& consumer_groups_count <= u32::MAX
            &&& response.totals == totals(streams)
            &&& response.consumer_groups_count == consumer_groups_count
            &&& response.clients_count == clients_count
            &&& response.shows_system(system)
            &&& response.server_version@ == version.text@
            &&& response.server_semver == version.number
        },
        Err(error) => {
            &&& !counts_fit(streams.items.values()) || consumer_groups_count > u32::MAX
            &&& error == ResponseError::CountOutOfRange
        },
    }
}

/// Statistics of the node: totals of the committed metadata, what the system
/// reported, and the number of connected clients over all shards.
pub fn build_stats_response(
    streams: &Streams,
    consumer_groups_count: usize,
    clients_count: u32,
    system: &SystemStats,
    version: &ServerVersion,
) -> (result: Result<StatsResponse, ResponseError>)
    ensures
        answers_stats(
            *streams,
            consumer_groups_count,
            clients_count,
            *system,
            *version,
            result,
        ),
{
    let sums = aggregate_stats_totals(streams)?;
    let groups = usize_to_u32(consumer_groups_count)?;
    Ok(
        StatsResponse {
            process_id: system.process_id,
            cpu_usage_bits: system.cpu_usage_bits,
            total_cpu_usage_bits: system.total_cpu_usage_bits,
            memory_usage: system.memory_usage,
            total_memory: system.total_memory,
            available_memory: system.available_memory,
            run_time: system.run_time,
            start_time: system.start_time,
            read_bytes: system.read_bytes,
            written_bytes: system.written_bytes,
            totals: sums,
            clients_count,
            consumer_groups_count: groups,
            hostname: system.hostname.clone(),
            os_name: system.os_name.clone(),
            os_version: system.os_version.clone(),
            kernel_version: system.kernel_version.clone(),
            server_version: version.text.clone(),
            server_semver: version.number,
            threads_count: system.threads_count,
            free_disk_space: system.free_disk_space,
            total_disk_space: system.total_disk_space,
        },
    )
}

// ---------------------------------------------------------------------------
// The floor
// ---------------------------------------------------------------------------

/// The sum of the segments that `details` report.
pub open spec fn detailed_segments(details: Seq<PartitionResponse>) -> nat
    decreases details.len(),
{
    if details.len() == 0 {
        0
    } else {
        detailed_segments(details.drop_last()) + details.last().segments_count as nat
    }
}

/// The total and the detail cannot disagree: what the detail responses of a
/// topic's partitions report adds up to what the topic contributes to the
/// total.
pub proof fn lemma_details_add_up_to_the_total(
    streams: Streams,
    stream_id: usize,
    topic_id: usize,
    partitions: Seq<Partition>,
    details: Seq<PartitionResponse>,
)
    requires
        responses::shows_partitions(details, streams, stream_id, topic_id, partitions),
    ensures
        detailed_segments(details) == partition_segments(streams, stream_id, topic_id, partitions),
    decreases partitions.len(),
{
    if partitions.len() > 0 {
        let front = details.drop_last();
        assert forall|i: int| 0 <= i < front.len() implies (#[trigger] front[i]).shows(
            partitions.drop_last()[i],
            streams.stats_registry.at(stream_id, topic_id, partitions.drop_last()[i].id),
        ) by {
            assert(details[i] == front[i]);
        }
        lemma_details_add_up_to_the_total(
            streams,
            stream_id,
            topic_id,
            partitions.drop_last(),
            front,
        );
        assert(details[details.len() - 1].shows(
            partitions.last(),
            streams.stats_registry.at(stream_id, topic_id, partitions.last().id),
        ));
    }
}

/// Whether between `before` and `after` partitions only went from being built
/// to holding their first segment.
pub open spec fn only_materialises(before: Streams, after: Streams) -> bool {
    &&& after.items == before.items
    &&& forall|s: usize, t: usize, p: usize|
        {
            let earlier = before.stats_registry.at(s, t, p);
            let later = #[trigger] after.stats_registry.at(s, t, p);
            ||| later == earlier
            ||| {
                &&& earlier matches Some(counters) ==> counters.segments_count == 0
                &&& later matches Some(counters) && counters.segments_count == 1
            }
        }
}

proof fn lemma_partitions_materialise(
    before: Streams,
    after: Streams,
    stream_id: usize,
    topic_id: usize,
    partitions: Seq<Partition>,
)
    requires
        only_materialises(before, after),
    ensures
        partition_segments(after, stream_id, topic_id, partitions) == partition_segments(
            before,
            stream_id,
            topic_id,
            partitions,
        ),
    decreases partitions.len(),
{
    if partitions.len() > 0 {
        lemma_partitions_materialise(before, after, stream_id, topic_id, partitions.drop_last());
        let id = partitions.last().id;
        assert(responses::reported_segments(after.stats_registry.at(stream_id, topic_id, id))
            == responses::reported_segments(before.stats_registry.at(stream_id, topic_id, id)));
    }
}

proof fn lemma_topics_materialise(
    before: Streams,
    after: Streams,
    stream_id: usize,
    topics: Seq<Topic>,
)
    requires
        only_materialises(before, after),
    ensures
        topic_segments(after, stream_id, topics) == topic_segments(before, stream_id, topics),
    decreases topics.len(),
{
    if topics.len() > 0 {
        lemma_topics_materialise(before, after, stream_id, topics.drop_last());
        lemma_partitions_materialise(
            before,
            after,
            stream_id,
            topics.last().id,
            topics.last().partitions@,
        );
    }
}

proof fn lemma_streams_materialise(before: Streams, after: Streams, items: Seq<Stream>)
    requires
        only_materialises(before, after),
    ensures
        stream_segments(after, items) == stream_segments(before, items),
    decreases items.len(),
{
    if items.len() > 0 {
        lemma_streams_materialise(before, after, items.drop_last());
        lemma_topics_materialise(before, after, items.last().id, items.last().topics.values());
    }
}

/// Materialising partitions changes nothing: the totals do not climb between
/// two reads with no write in between.
pub proof fn lemma_materialising_keeps_the_totals(before: Streams, after: Streams)
    requires
        only_materialises(before, after),
    ensures
        totals(after) == totals(before),
{
    lemma_streams_materialise(before, after, before.items.values());
}

} // verus!
