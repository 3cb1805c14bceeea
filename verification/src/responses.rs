//! Responses that show streams, topics and partitions.

use vstd::prelude::*;

use crate::error::{usize_to_u32, ResponseError};
use crate::metadata;
use crate::metadata::{
    EncodedOptions, EncodedTopicOptions, Name, Partition, PartitionStats, Slots, Stream, Streams,
    Topic,
};

verus! {

// ---------------------------------------------------------------------------
// Names and options
// ---------------------------------------------------------------------------

/// `name` as the wire carries it.
pub(crate) fn wire_name(name: &Name) -> (result: Result<String, ResponseError>)
    ensures
        match result {
            Ok(text) => name.fits_wire && text == name.text,
            Err(error) => !name.fits_wire && error == ResponseError::InvalidFormat,
        },
{
    if name.fits_wire {
        Ok(name.text.clone())
    } else {
        Err(ResponseError::InvalidFormat)
    }
}

/// A copy of `bytes`.
pub(crate) fn copied(bytes: &Vec<u8>) -> (copy: Vec<u8>)
    ensures
        copy@ == bytes@,
{
    let copy = bytes.clone();
    assert(copy@ =~= bytes@);
    copy
}

/// Why an option set cannot be sent, if it cannot.
pub open spec fn options_error(options: EncodedOptions) -> Option<ResponseError> {
    match options {
        EncodedOptions::Encoded(_) => None,
        EncodedOptions::Refused(code) => Some(ResponseError::Refused(code)),
    }
}

/// The encoded option set.
pub(crate) fn wire_options(options: &EncodedOptions) -> (result: Result<Vec<u8>, ResponseError>)
    ensures
        match result {
            Ok(bytes) => *options matches EncodedOptions::Encoded(encoded) && bytes@ == encoded@,
            Err(error) => options_error(*options) == Some(error),
        },
{
    match options {
        EncodedOptions::Encoded(encoded) => Ok(copied(encoded)),
        EncodedOptions::Refused(code) => Err(ResponseError::Refused(*code)),
    }
}

// ---------------------------------------------------------------------------
// Streams and topics
// ---------------------------------------------------------------------------

/// A stream on the wire.
#[derive(Debug, PartialEq, Eq)]
pub struct StreamResponse {
    pub id: u32,
    pub created_at: u64,
    pub topics_count: u32,
    pub size_bytes: u64,
    pub messages_count: u64,
    pub name: String,
    pub options: Vec<u8>,
}

impl StreamResponse {
    /// Whether this shows `stream`.
    pub open spec fn shows(self, stream: Stream) -> bool {
        &&& self.id == stream.id
        &&& self.created_at == stream.created_at
        &&& self.topics_count == stream.topics.values().len()
        &&& self.size_bytes == stream.stats.size_bytes
        &&& self.messages_count == stream.stats.messages_count
        &&& self.name@ == stream.name.text@
        &&& stream.options matches EncodedOptions::Encoded(encoded) && self.options@ == encoded@
    }
}

/// Why `stream` cannot be shown, if it cannot.
pub open spec fn stream_error(stream: Stream) -> Option<ResponseError> {
    if stream.id > u32::MAX || stream.topics.values().len() > u32::MAX {
        Some(ResponseError::CountOutOfRange)
    } else if !stream.name.fits_wire {
        Some(ResponseError::InvalidFormat)
    } else {
        options_error(stream.options)
    }
}

/// `stream` on the wire.
pub fn stream_response(stream: &Stream) -> (result: Result<StreamResponse, ResponseError>)
    ensures
        match result {
            Ok(response) => stream_error(*stream) is None && response.shows(*stream),
            Err(error) => stream_error(*stream) == Some(error),
        },
{
    let id = usize_to_u32(stream.id)?;
    let topics_count = usize_to_u32(stream.topics.len())?;
    let name = wire_name(&stream.name)?;
    let options = wire_options(&stream.options)?;
    Ok(
        StreamResponse {
            id,
            created_at: stream.created_at,
            topics_count,
            size_bytes: stream.stats.size_bytes,
            messages_count: stream.stats.messages_count,
            name,
            options,
        },
    )
}

/// A topic on the wire, without its partitions.
#[derive(Debug, PartialEq, Eq)]
pub struct TopicHeader {
    pub id: u32,
    pub created_at: u64,
    pub partitions_count: u32,
    pub message_expiry: u64,
    pub compression_algorithm: u8,
    pub max_topic_size: u64,
    pub size_bytes: u64,
    pub messages_count: u64,
    pub name: String,
    pub options: Vec<u8>,
    pub derived_options: Vec<u8>,
}

impl TopicHeader {
    /// Whether this shows `topic`.
    pub open spec fn shows(self, topic: Topic) -> bool {
        &&& self.id == topic.id
        &&& self.created_at == topic.created_at
        &&& self.partitions_count == topic.partitions@.len()
        &&& self.message_expiry == topic.message_expiry.on_wire()
        &&& self.compression_algorithm == topic.compression_algorithm
        &&& self.max_topic_size == topic.max_topic_size.on_wire()
        &&& self.size_bytes == topic.stats.size_bytes
        &&& self.messages_count == topic.stats.messages_count
        &&& self.name@ == topic.name.text@
        &&& topic.options matches EncodedTopicOptions::Encoded { options, derived_options }
            && self.options@ == options@ && self.derived_options@ == derived_options@
    }
}

/// Why `topic` cannot be shown, if it cannot.
pub open spec fn topic_error(topic: Topic) -> Option<ResponseError> {
    match topic.options {
        EncodedTopicOptions::Refused(code) => Some(ResponseError::Refused(code)),
        EncodedTopicOptions::Encoded { .. } => if topic.id > u32::MAX || topic.partitions@.len()
            > u32::MAX {
            Some(ResponseError::CountOutOfRange)
        } else if !topic.name.fits_wire {
            Some(ResponseError::InvalidFormat)
        } else {
            None
        },
    }
}

/// `topic` on the wire, without its partitions.
///
/// Stored `message_expiry` and `max_topic_size` echo verbatim, the server
/// default as the wire sentinel (0): create admission resolves the sentinels
/// against server config before replication, so a stored sentinel came from an
/// update and must read back as the server default, not as the node default
/// frozen at read time.
pub fn topic_header(topic: &Topic) -> (result: Result<TopicHeader, ResponseError>)
    ensures
        match result {
            Ok(response) => topic_error(*topic) is None && response.shows(*topic),
            Err(error) => topic_error(*topic) == Some(error),
        },
{
    let (options, derived_options) = match &topic.options {
        EncodedTopicOptions::Encoded { options, derived_options } => (
            copied(options),
            copied(derived_options),
        ),
        EncodedTopicOptions::Refused(code) => {
            return Err(ResponseError::Refused(*code));
        },
    };
    let id = usize_to_u32(topic.id)?;
    let partitions_count = usize_to_u32(topic.partitions.len())?;
    let name = wire_name(&topic.name)?;
    Ok(
        TopicHeader {
            id,
            created_at: topic.created_at,
            partitions_count,
            message_expiry: topic.message_expiry.to_wire(),
            compression_algorithm: topic.compression_algorithm,
            max_topic_size: topic.max_topic_size.to_wire(),
            size_bytes: topic.stats.size_bytes,
            messages_count: topic.stats.messages_count,
            name,
            options,
            derived_options,
        },
    )
}

/// Why the first topic that cannot be shown cannot.
pub open spec fn topics_error(topics: Seq<Topic>) -> Option<ResponseError>
    decreases topics.len(),
{
    if topics.len() == 0 {
        None
    } else {
        match topics_error(topics.drop_last()) {
            Some(error) => Some(error),
            None => topic_error(topics.last()),
        }
    }
}

/// Whether `headers` show `topics` in order.
pub open spec fn shows_topics(headers: Seq<TopicHeader>, topics: Seq<Topic>) -> bool {
    &&& headers.len() == topics.len()
    &&& forall|i: int| 0 <= i < headers.len() ==> (#[trigger] headers[i]).shows(topics[i])
}

/// An error among the first topics is the error of all.
proof fn lemma_first_topic_error(slots: Seq<Option<Topic>>, n: int)
    requires
        0 <= n <= slots.len(),
        topics_error(metadata::occupied(slots.take(n))) is Some,
    ensures
        topics_error(metadata::occupied(slots)) == topics_error(
            metadata::occupied(slots.take(n)),
        ),
    decreases slots.len() - n,
{
    if n < slots.len() {
        let shorter = metadata::occupied(slots.take(n));
        assert(slots.take(n + 1).drop_last() =~= slots.take(n));
        if let Some(topic) = slots[n] {
            assert(shorter.push(topic).drop_last() =~= shorter);
        }
        lemma_first_topic_error(slots, n + 1);
    } else {
        assert(slots.take(n) =~= slots);
    }
}

/// Every topic of `topics` on the wire, without its partitions.
fn topic_headers(topics: &Slots<Topic>) -> (result: Result<Vec<TopicHeader>, ResponseError>)
    ensures
        match result {
            Ok(headers) => topics_error(topics.values()) is None && shows_topics(
                headers@,
                topics.values(),
            ),
            Err(error) => topics_error(topics.values()) == Some(error),
        },
{
    let ghost slots = topics.slots@;
    let mut headers: Vec<TopicHeader> = Vec::new();
    let mut i: usize = 0;
    while i < topics.slots.len()
        invariant
            i <= slots.len(),
            slots == topics.slots@,
            topics_error(metadata::occupied(slots.take(i as int))) is None,
            shows_topics(headers@, metadata::occupied(slots.take(i as int))),
        decreases slots.len() - i,
    {
        let ghost shorter = metadata::occupied(slots.take(i as int));
        assert(slots.take(i + 1).drop_last() =~= slots.take(i as int));
        if let Some(topic) = &topics.slots[i] {
            assert(shorter.push(*topic).drop_last() =~= shorter);
            match topic_header(topic) {
                Ok(header) => headers.push(header),
                Err(error) => {
                    proof {
                        lemma_first_topic_error(slots, i + 1);
                    }
                    return Err(error);
                },
            }
        }
        i += 1;
    }
    assert(slots.take(i as int) =~= slots);
    Ok(headers)
}

/// A stream with its topics.
#[derive(Debug, PartialEq, Eq)]
pub struct GetStreamResponse {
    pub stream: StreamResponse,
    pub topics: Vec<TopicHeader>,
}

/// What a request for one stream is answered with. `stream_id` is the slot
/// that the identifier in the request resolves to.
pub open spec fn answers_get_stream(
    streams: Streams,
    stream_id: Option<usize>,
    result: Result<Option<GetStreamResponse>, ResponseError>,
) -> bool {
    match stream_id {
        None => result matches Ok(None),
        Some(slot) => match streams.items.at(slot as int) {
            None => result == Err::<Option<GetStreamResponse>, _>(
                ResponseError::InvalidIdentifier,
            ),
            Some(stream) => match result {
                Ok(Some(response)) => {
                    &&& stream_error(stream) is None
                    &&& topics_error(stream.topics.values()) is None
                    &&& response.stream.shows(stream)
                    &&& shows_topics(response.topics@, stream.topics.values())
                },
                Ok(None) => false,
                Err(error) => match stream_error(stream) {
                    Some(first) => error == first,
                    None => topics_error(stream.topics.values()) == Some(error),
                },
            },
        },
    }
}

/// A stream with its topics; `None` when the identifier resolved to nothing.
pub fn build_get_stream_response(streams: &Streams, stream_id: Option<usize>) -> (result: Result<
    Option<GetStreamResponse>,
    ResponseError,
>)
    ensures
        answers_get_stream(*streams, stream_id, result),
{
    let slot = match stream_id {
        Some(slot) => slot,
        None => {
            return Ok(None);
        },
    };
    let stream = match streams.items.get(slot) {
        Some(stream) => stream,
        None => {
            return Err(ResponseError::InvalidIdentifier);
        },
    };
    let header = match stream_response(stream) {
        Ok(header) => header,
        Err(error) => {
            return Err(error);
        },
    };
    match topic_headers(&stream.topics) {
        Ok(topics) => Ok(Some(GetStreamResponse { stream: header, topics })),
        Err(error) => Err(error),
    }
}

/// Why the first stream that cannot be shown cannot.
pub open spec fn streams_error(streams: Seq<Stream>) -> Option<ResponseError>
    decreases streams.len(),
{
    if streams.len() == 0 {
        None
    } else {
        match streams_error(streams.drop_last()) {
            Some(error) => Some(error),
            None => stream_error(streams.last()),
        }
    }
}

/// Whether `responses` show `streams` in order.
pub open spec fn shows_streams(responses: Seq<StreamResponse>, streams: Seq<Stream>) -> bool {
    &&& responses.len() == streams.len()
    &&& forall|i: int| 0 <= i < responses.len() ==> (#[trigger] responses[i]).shows(streams[i])
}

proof fn lemma_first_stream_error(slots: Seq<Option<Stream>>, n: int)
    requires
        0 <= n <= slots.len(),
        streams_error(metadata::occupied(slots.take(n))) is Some,
    ensures
        streams_error(metadata::occupied(slots)) == streams_error(
            metadata::occupied(slots.take(n)),
        ),
    decreases slots.len() - n,
{
    if n < slots.len() {
        let shorter = metadata::occupied(slots.take(n));
        assert(slots.take(n + 1).drop_last() =~= slots.take(n));
        if let Some(stream) = slots[n] {
            assert(shorter.push(stream).drop_last() =~= shorter);
        }
        lemma_first_stream_error(slots, n + 1);
    } else {
        assert(slots.take(n) =~= slots);
    }
}

/// Every stream, without its topics.
#[derive(Debug, PartialEq, Eq)]
pub struct GetStreamsResponse {
    pub streams: Vec<StreamResponse>,
}

/// Every stream, without its topics.
pub fn build_get_streams_response(streams: &Streams) -> (result: Result<
    GetStreamsResponse,
    ResponseError,
>)
    ensures
        match result {
            Ok(response) => streams_error(streams.items.values()) is None && shows_streams(
                response.streams@,
                streams.items.values(),
            ),
            Err(error) => streams_error(streams.items.values()) == Some(error),
        },
{
    let ghost slots = streams.items.slots@;
    let mut responses: Vec<StreamResponse> = Vec::new();
    let mut i: usize = 0;
    while i < streams.items.slots.len()
        invariant
            i <= slots.len(),
            slots == streams.items.slots@,
            streams_error(metadata::occupied(slots.take(i as int))) is None,
            shows_streams(responses@, metadata::occupied(slots.take(i as int))),
        decreases slots.len() - i,
    {
        let ghost shorter = metadata::occupied(slots.take(i as int));
        assert(slots.take(i + 1).drop_last() =~= slots.take(i as int));
        if let Some(stream) = &streams.items.slots[i] {
            assert(shorter.push(*stream).drop_last() =~= shorter);
            match stream_response(stream) {
                Ok(response) => responses.push(response),
                Err(error) => {
                    proof {
                        lemma_first_stream_error(slots, i + 1);
                    }
                    return Err(error);
                },
            }
        }
        i += 1;
    }
    assert(slots.take(i as int) =~= slots);
    Ok(GetStreamsResponse { streams: responses })
}

// ---------------------------------------------------------------------------
// Partitions
// ---------------------------------------------------------------------------

/// Segments a committed partition reports before its storage exists.
pub const MATERIALIZED_SEGMENTS_FLOOR: u32 = 1;

/// Segments a partition with the registered counters `stats` reports.
pub open spec fn reported_segments(stats: Option<PartitionStats>) -> u32 {
    match stats {
        Some(counters) => if counters.segments_count > MATERIALIZED_SEGMENTS_FLOOR {
            counters.segments_count
        } else {
            MATERIALIZED_SEGMENTS_FLOOR
        },
        None => MATERIALIZED_SEGMENTS_FLOOR,
    }
}

/// Segments one committed partition reports. The single source for every
/// client-facing segment count, so the stats total and the per-partition
/// detail cannot disagree about the same partition.
pub fn partition_segments_count(
    streams: &Streams,
    stream_id: usize,
    topic_id: usize,
    partition_id: usize,
) -> (segments: u32)
    ensures
        segments == reported_segments(
            streams.stats_registry.at(stream_id, topic_id, partition_id),
        ),
        match streams.stats_registry.at(stream_id, topic_id, partition_id) {
            Some(counters) => segments == if counters.segments_count == 0 {
                1
            } else {
                counters.segments_count
            },
            None => segments == 1,
        },
{
    match streams.stats_registry.partition_get(stream_id, topic_id, partition_id) {
        Some(stats) => if stats.segments_count > MATERIALIZED_SEGMENTS_FLOOR {
            stats.segments_count
        } else {
            MATERIALIZED_SEGMENTS_FLOOR
        },
        None => MATERIALIZED_SEGMENTS_FLOOR,
    }
}

/// A partition on the wire.
#[derive(Debug, Clone, Copy, PartialEq, Eq, Structural)]
pub struct PartitionResponse {
    pub id: u32,
    pub created_at: u64,
    pub segments_count: u32,
    pub current_offset: u64,
    pub size_bytes: u64,
    pub messages_count: u64,
}

impl PartitionResponse {
    /// Whether this shows `partition`, whose registered counters are `stats`.
    pub open spec fn shows(self, partition: Partition, stats: Option<PartitionStats>) -> bool {
        &&& self.id == partition.id
        &&& self.created_at == partition.created_at
        &&& self.segments_count == reported_segments(stats)
        &&& self.current_offset == match stats {
            Some(counters) => counters.current_offset,
            None => 0,
        }
        &&& self.size_bytes == match stats {
            Some(counters) => counters.size_bytes,
            None => 0,
        }
        &&& self.messages_count == match stats {
            Some(counters) => counters.messages_count,
            None => 0,
        }
    }
}

/// A partition on the wire.
///
/// Registration is not materialization: the entry is minted before the
/// partition is built, and its segments are only counted once the segment file
/// is open. So a registry miss and a registered entry still reading zero
/// segments are the same thing to a caller, committed and not yet holding
/// storage, and both report the shape every materialization lands on: one
/// empty segment at offset 0.
pub fn partition_response(
    streams: &Streams,
    stream_id: usize,
    topic_id: usize,
    partition: &Partition,
) -> (result: Result<PartitionResponse, ResponseError>)
    ensures
        match result {
            Ok(response) => partition.id <= u32::MAX && response.shows(
                *partition,
                streams.stats_registry.at(stream_id, topic_id, partition.id),
            ),
            Err(error) => partition.id > u32::MAX && error == ResponseError::CountOutOfRange,
        },
{
    let (current_offset, size_bytes, messages_count) = match streams.stats_registry.partition_get(
        stream_id,
        topic_id,
        partition.id,
    ) {
        Some(stats) => (stats.current_offset, stats.size_bytes, stats.messages_count),
        None => (0, 0, 0),
    };
    let id = usize_to_u32(partition.id)?;
    Ok(
        PartitionResponse {
            id,
            created_at: partition.created_at,
            segments_count: partition_segments_count(streams, stream_id, topic_id, partition.id),
            current_offset,
            size_bytes,
            messages_count,
        },
    )
}

/// Whether `responses` show the partitions of a topic in order.
pub open spec fn shows_partitions(
    responses: Seq<PartitionResponse>,
    streams: Streams,
    stream_id: usize,
    topic_id: usize,
    partitions: Seq<Partition>,
) -> bool {
    &&& responses.len() == partitions.len()
    &&& forall|i: int|
        0 <= i < responses.len() ==> (#[trigger] responses[i]).shows(
            partitions[i],
            streams.stats_registry.at(stream_id, topic_id, partitions[i].id),
        )
}

/// Whether every partition has an id that fits the wire.
pub open spec fn partition_ids_fit(partitions: Seq<Partition>) -> bool {
    forall|i: int| 0 <= i < partitions.len() ==> (#[trigger] partitions[i]).id <= u32::MAX
}

/// A topic with its partitions.
#[derive(Debug, PartialEq, Eq)]
pub struct GetTopicResponse {
    pub topic: TopicHeader,
    pub partitions: Vec<PartitionResponse>,
}

/// What a request for one topic is answered with. `stream_id` and `topic_id`
/// are the slots that the identifiers in the request resolve to.
pub open spec fn answers_get_topic(
    streams: Streams,
    stream_id: Option<usize>,
    topic_id: Option<usize>,
    result: Result<Option<GetTopicResponse>, ResponseError>,
) -> bool {
    if stream_id is None || topic_id is None {
        result matches Ok(None)
    } else {
        let invalid = Err::<Option<GetTopicResponse>, _>(ResponseError::InvalidIdentifier);
        match streams.items.at(stream_id->0 as int) {
            None => result == invalid,
            Some(stream) => match stream.topics.at(topic_id->0 as int) {
                None => result == invalid,
                Some(topic) => match result {
                    Ok(Some(response)) => {
                        &&& topic_error(topic) is None
                        &&& partition_ids_fit(topic.partitions@)
                        &&& response.topic.shows(topic)
                        &&& shows_partitions(
                            response.partitions@,
                            streams,
                            stream_id->0,
                            topic_id->0,
                            topic.partitions@,
                        )
                    },
                    Ok(None) => false,
                    Err(error) => match topic_error(topic) {
                        Some(first) => error == first,
                        None => !partition_ids_fit(topic.partitions@) && error
                            == ResponseError::CountOutOfRange,
                    },
                },
            },
        }
    }
}

/// A topic with its partitions; `None` when either identifier resolved to
/// nothing.
pub fn build_get_topic_response(
    streams: &Streams,
    stream_id: Option<usize>,
    topic_id: Option<usize>,
) -> (result: Result<Option<GetTopicResponse>, ResponseError>)
    ensures
        answers_get_topic(*streams, stream_id, topic_id, result),
{
    let stream_slot = match stream_id {
        Some(slot) => slot,
        None => {
            return Ok(None);
        },
    };
    let topic_slot = match topic_id {
        Some(slot) => slot,
        None => {
            return Ok(None);
        },
    };
    let stream = match streams.items.get(stream_slot) {
        Some(stream) => stream,
        None => {
            return Err(ResponseError::InvalidIdentifier);
        },
    };
    let topic = match stream.topics.get(topic_slot) {
        Some(topic) => topic,
        None => {
            return Err(ResponseError::InvalidIdentifier);
        },
    };
    let header = match topic_header(topic) {
        Ok(header) => header,
        Err(error) => {
            return Err(error);
        },
    };
    let mut partitions: Vec<PartitionResponse> = Vec::new();
    let mut i: usize = 0;
    while i < topic.partitions.len()
        invariant
            i <= topic.partitions@.len(),
            stream_id == Some(stream_slot),
            topic_id == Some(topic_slot),
            streams.items.at(stream_slot as int) == Some(*stream),
            stream.topics.at(topic_slot as int) == Some(*topic),
            topic_error(*topic) is None,
            partition_ids_fit(topic.partitions@.take(i as int)),
            shows_partitions(
                partitions@,
                *streams,
                stream_slot,
                topic_slot,
                topic.partitions@.take(i as int),
            ),
        decreases topic.partitions@.len() - i,
    {
        let partition = &topic.partitions[i];
        assert(topic.partitions@.take(i + 1)[i as int] == *partition);
        match partition_response(streams, stream_slot, topic_slot, partition) {
            Ok(response) => {
                partitions.push(response);
            },
            Err(error) => {
                assert(topic.partitions@[i as int].id > u32::MAX);
                return Err(error);
            },
        }
        assert forall|j: int| 0 <= j < i implies topic.partitions@.take(i + 1)[j]
            == topic.partitions@.take(i as int)[j] by {}
        i += 1;
    }
    assert(topic.partitions@.take(i as int) =~= topic.partitions@);
    Ok(Some(GetTopicResponse { topic: header, partitions }))
}

/// The topics of a stream, without their partitions.
#[derive(Debug, PartialEq, Eq)]
pub struct GetTopicsResponse {
    pub topics: Vec<TopicHeader>,
}

/// What a request for the topics of a stream is answered with. `stream_id` is
/// the slot that the identifier in the request resolves to.
pub open spec fn answers_get_topics(
    streams: Streams,
    stream_id: Option<usize>,
    result: Result<GetTopicsResponse, ResponseError>,
) -> bool {
    match stream_id {
        None => result matches Ok(response) && response.topics@.len() == 0,
        Some(slot) => match streams.items.at(slot as int) {
            None => result == Err::<GetTopicsResponse, _>(ResponseError::InvalidIdentifier),
            Some(stream) => match result {
                Ok(response) => topics_error(stream.topics.values()) is None && shows_topics(
                    response.topics@,
                    stream.topics.values(),
                ),
                Err(error) => topics_error(stream.topics.values()) == Some(error),
            },
        },
    }
}

/// The topics of a stream, without their partitions. A stream that does not
/// exist lists as empty.
pub fn build_get_topics_response(streams: &Streams, stream_id: Option<usize>) -> (result: Result<
    GetTopicsResponse,
    ResponseError,
>)
    ensures
        answers_get_topics(*streams, stream_id, result),
{
    let slot = match stream_id {
        Some(slot) => slot,
        None => {
            return Ok(GetTopicsResponse { topics: Vec::new() });
        },
    };
    match streams.items.get(slot) {
        Some(stream) => match topic_headers(&stream.topics) {
            Ok(topics) => Ok(GetTopicsResponse { topics }),
            Err(error) => Err(error),
        },
        None => Err(ResponseError::InvalidIdentifier),
    }
}

} // verus!
