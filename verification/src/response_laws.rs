//! What a response shows of what is committed, field by field, and why a read
//! is refused.

use vstd::prelude::*;

use crate::accounts;
use crate::accounts::{
    ClientDetailsResponse, ClientResponse, ConnectedClient, PersonalAccessTokenResponse,
    UserDetailsResponse, UserResponse,
};
use crate::dispatch;
use crate::dispatch::{
    ConsensusSight, DescribeOptionsResponse, GroupLookup, NodeState, NonReplicatedResponse,
    OptionsScope, ReadCommand, ResponseBody,
};
use crate::error;
use crate::error::ResponseError;
use crate::metadata;
use crate::metadata::{
    EncodedOptions, EncodedTopicOptions, MaxTopicSize, Memberships, MessageExpiry, Partition,
    PartitionStats, PersonalAccessToken, Slots, Stream, Streams, Topic, User, Users,
};
use crate::options_catalog;
use crate::options_catalog::TopicOptionBuild;
use crate::responses;
use crate::responses::{
    GetStreamResponse, GetTopicResponse, GetTopicsResponse, PartitionResponse, StreamResponse,
    TopicHeader,
};
use crate::stats;
use crate::stats::{ServerVersion, StatsResponse, SystemStats};

verus! {

// ---------------------------------------------------------------------------
// Numbers
// ---------------------------------------------------------------------------

/// A number goes on the wire as it is if 32 bits hold it, and is refused if
/// they do not.
pub proof fn lemma_narrowed_meaning(value: int)
    ensures
        0 <= value <= 0xffff_ffff ==> error::narrowed(value) is Ok && error::narrowed(value)->Ok_0
            == value,
        !(0 <= value <= 0xffff_ffff) ==> error::narrowed(value) == Err::<u32, _>(
            ResponseError::CountOutOfRange,
        ),
{
}

/// An expiry is told apart on the wire: the default is 0, never is the largest
/// value, and a span is itself.
pub proof fn lemma_expiry_on_wire(micros: u64)
    ensures
        MessageExpiry::ServerDefault.on_wire() == 0,
        MessageExpiry::ExpireDuration(micros).on_wire() == micros,
        MessageExpiry::NeverExpire.on_wire() == 0xffff_ffff_ffff_ffff,
{
}

/// A size is told apart on the wire likewise.
pub proof fn lemma_size_on_wire(bytes: u64)
    ensures
        MaxTopicSize::ServerDefault.on_wire() == 0,
        MaxTopicSize::Custom(bytes).on_wire() == bytes,
        MaxTopicSize::Unlimited.on_wire() == 0xffff_ffff_ffff_ffff,
{
}

/// A slot holds what is stored under its number, and nothing past the last.
pub proof fn lemma_slot_meaning<T>(slots: Slots<T>, id: int)
    ensures
        0 <= id < slots.slots@.len() ==> slots.at(id) == slots.slots@[id],
        !(0 <= id < slots.slots@.len()) ==> slots.at(id) is None,
        slots.values() == metadata::occupied(slots.slots@),
{
}

// ---------------------------------------------------------------------------
// Streams
// ---------------------------------------------------------------------------

/// A stream is shown field by field, its options as they are encoded.
pub proof fn lemma_shown_stream(response: StreamResponse, stream: Stream)
    ensures
        response.shows(stream) <==> {
            &&& response.id == stream.id
            &&& response.created_at == stream.created_at
            &&& response.topics_count == metadata::occupied(stream.topics.slots@).len()
            &&& response.size_bytes == stream.stats.size_bytes
            &&& response.messages_count == stream.stats.messages_count
            &&& response.name@ == stream.name.text@
            &&& stream.options matches EncodedOptions::Encoded(encoded) && response.options@
                == encoded@
        },
{
}

/// A stream can be shown exactly when its number and its topics fit 32 bits,
/// its name fits the wire and its options are encoded. Numbers are looked at
/// first, then the name, then the options.
pub proof fn lemma_stream_error_meaning(stream: Stream)
    ensures
        ({
            let numbers_fit = stream.id <= 0xffff_ffff && metadata::occupied(
                stream.topics.slots@,
            ).len() <= 0xffff_ffff;
            let found = responses::stream_error(stream);
            &&& !numbers_fit ==> found == Some(ResponseError::CountOutOfRange)
            &&& numbers_fit && !stream.name.fits_wire ==> found == Some(
                ResponseError::InvalidFormat,
            )
            &&& numbers_fit && stream.name.fits_wire ==> match stream.options {
                EncodedOptions::Encoded(_) => found is None,
                EncodedOptions::Refused(code) => found == Some(ResponseError::Refused(code)),
            }
        }),
{
}

/// Streams are refused with what is wrong with the first of them that cannot
/// be shown.
pub proof fn lemma_streams_error_meaning(streams: Seq<Stream>)
    ensures
        match responses::streams_error(streams) {
            None => forall|i: int|
                0 <= i < streams.len() ==> responses::stream_error(#[trigger] streams[i]) is None,
            Some(error) => exists|i: int|
                {
                    &&& 0 <= i < streams.len()
                    &&& responses::stream_error(#[trigger] streams[i]) == Some(error)
                    &&& forall|j: int|
                        0 <= j < i ==> responses::stream_error(#[trigger] streams[j]) is None
                },
        },
    decreases streams.len(),
{
    if streams.len() > 0 {
        let front = streams.drop_last();
        let last = streams.len() - 1;
        lemma_streams_error_meaning(front);
        match responses::streams_error(front) {
            Some(error) => {
                let i = choose|i: int|
                    {
                        &&& 0 <= i < front.len()
                        &&& responses::stream_error(#[trigger] front[i]) == Some(error)
                        &&& forall|j: int|
                            0 <= j < i ==> responses::stream_error(#[trigger] front[j]) is None
                    };
                assert(streams[i] == front[i]);
                assert forall|j: int| 0 <= j < i implies responses::stream_error(
                    #[trigger] streams[j],
                ) is None by {
                    assert(front[j] == streams[j]);
                }
            },
            None => {
                assert forall|j: int| 0 <= j < last implies responses::stream_error(
                    #[trigger] streams[j],
                ) is None by {
                    assert(front[j] == streams[j]);
                }
                assert(responses::streams_error(streams) == responses::stream_error(streams[last]));
            },
        }
    }
}

/// Streams are shown one for one, in order.
pub proof fn lemma_shown_streams(shown: Seq<StreamResponse>, streams: Seq<Stream>)
    ensures
        responses::shows_streams(shown, streams) <==> shown.len() == streams.len() && forall|i: int|
            0 <= i < streams.len() ==> (#[trigger] shown[i]).shows(streams[i]),
{
}

// ---------------------------------------------------------------------------
// Topics
// ---------------------------------------------------------------------------

/// A topic is shown field by field, both parts of its options as they are
/// encoded.
pub proof fn lemma_shown_topic(header: TopicHeader, topic: Topic)
    ensures
        header.shows(topic) <==> {
            &&& header.id == topic.id
            &&& header.created_at == topic.created_at
            &&& header.partitions_count == topic.partitions@.len()
            &&& header.message_expiry == match topic.message_expiry {
                MessageExpiry::ServerDefault => 0,
                MessageExpiry::ExpireDuration(micros) => micros,
                MessageExpiry::NeverExpire => 0xffff_ffff_ffff_ffff,
            }
            &&& header.compression_algorithm == topic.compression_algorithm
            &&& header.max_topic_size == match topic.max_topic_size {
                MaxTopicSize::ServerDefault => 0,
                MaxTopicSize::Custom(bytes) => bytes,
                MaxTopicSize::Unlimited => 0xffff_ffff_ffff_ffff,
            }
            &&& header.size_bytes == topic.stats.size_bytes
            &&& header.messages_count == topic.stats.messages_count
            &&& header.name@ == topic.name.text@
            &&& topic.options matches EncodedTopicOptions::Encoded { options, derived_options }
                && header.options@ == options@ && header.derived_options@ == derived_options@
        },
{
}

/// A topic can be shown exactly when its options are encoded, its number and
/// its partitions fit 32 bits and its name fits the wire. The options are
/// looked at first, then the numbers, then the name.
pub proof fn lemma_topic_error_meaning(topic: Topic)
    ensures
        ({
            let numbers_fit = topic.id <= 0xffff_ffff && topic.partitions@.len() <= 0xffff_ffff;
            let found = responses::topic_error(topic);
            match topic.options {
                EncodedTopicOptions::Refused(code) => found == Some(ResponseError::Refused(code)),
                EncodedTopicOptions::Encoded { options, derived_options } => {
                    &&& !numbers_fit ==> found == Some(ResponseError::CountOutOfRange)
                    &&& numbers_fit && !topic.name.fits_wire ==> found == Some(
                        ResponseError::InvalidFormat,
                    )
                    &&& numbers_fit && topic.name.fits_wire ==> found is None
                },
            }
        }),
{
}

/// Topics are refused with what is wrong with the first of them that cannot be
/// shown.
pub proof fn lemma_topics_error_meaning(topics: Seq<Topic>)
    ensures
        match responses::topics_error(topics) {
            None => forall|i: int|
                0 <= i < topics.len() ==> responses::topic_error(#[trigger] topics[i]) is None,
            Some(error) => exists|i: int|
                {
                    &&& 0 <= i < topics.len()
                    &&& responses::topic_error(#[trigger] topics[i]) == Some(error)
                    &&& forall|j: int|
                        0 <= j < i ==> responses::topic_error(#[trigger] topics[j]) is None
                },
        },
    decreases topics.len(),
{
    if topics.len() > 0 {
        let front = topics.drop_last();
        let last = topics.len() - 1;
        lemma_topics_error_meaning(front);
        match responses::topics_error(front) {
            Some(error) => {
                let i = choose|i: int|
                    {
                        &&& 0 <= i < front.len()
                        &&& responses::topic_error(#[trigger] front[i]) == Some(error)
                        &&& forall|j: int|
                            0 <= j < i ==> responses::topic_error(#[trigger] front[j]) is None
                    };
                assert(topics[i] == front[i]);
                assert forall|j: int| 0 <= j < i implies responses::topic_error(
                    #[trigger] topics[j],
                ) is None by {
                    assert(front[j] == topics[j]);
                }
            },
            None => {
                assert forall|j: int| 0 <= j < last implies responses::topic_error(
                    #[trigger] topics[j],
                ) is None by {
                    assert(front[j] == topics[j]);
                }
                assert(responses::topics_error(topics) == responses::topic_error(topics[last]));
            },
        }
    }
}

/// Topics are shown one for one, in order.
pub proof fn lemma_shown_topics(shown: Seq<TopicHeader>, topics: Seq<Topic>)
    ensures
        responses::shows_topics(shown, topics) <==> shown.len() == topics.len() && forall|i: int|
            0 <= i < topics.len() ==> (#[trigger] shown[i]).shows(topics[i]),
{
}

/// A partition is shown field by field: what is registered for it, and where
/// nothing is, one empty segment at offset 0.
pub proof fn lemma_shown_partition(
    response: PartitionResponse,
    partition: Partition,
    registered: Option<PartitionStats>,
)
    ensures
        response.shows(partition, registered) <==> {
            &&& response.id == partition.id
            &&& response.created_at == partition.created_at
            &&& match registered {
                Some(counters) => {
                    &&& response.segments_count == if counters.segments_count == 0 {
                        1
                    } else {
                        counters.segments_count
                    }
                    &&& response.current_offset == counters.current_offset
                    &&& response.size_bytes == counters.size_bytes
                    &&& response.messages_count == counters.messages_count
                },
                None => {
                    &&& response.segments_count == 1
                    &&& response.current_offset == 0
                    &&& response.size_bytes == 0
                    &&& response.messages_count == 0
                },
            }
        },
{
}

/// Partitions are shown one for one, in order, each with what is registered
/// under the stream, the topic and its own number.
pub proof fn lemma_shown_partitions(
    shown: Seq<PartitionResponse>,
    streams: Streams,
    stream_id: usize,
    topic_id: usize,
    partitions: Seq<Partition>,
)
    ensures
        responses::shows_partitions(shown, streams, stream_id, topic_id, partitions)
            <==> shown.len() == partitions.len() && forall|i: int|
            0 <= i < partitions.len() ==> (#[trigger] shown[i]).shows(
                partitions[i],
                streams.stats_registry.at(stream_id, topic_id, partitions[i].id),
            ),
        responses::partition_ids_fit(partitions) <==> forall|i: int|
            0 <= i < partitions.len() ==> (#[trigger] partitions[i]).id <= 0xffff_ffff,
{
}

// ---------------------------------------------------------------------------
// Answers on streams and topics
// ---------------------------------------------------------------------------

/// A request for one stream: an identifier that resolved to nothing is answered
/// with nothing, one that resolved to an empty slot is refused, and else the
/// stream is shown with its topics, or refused for what is wrong with it, and
/// only then for what is wrong with its topics.
pub proof fn lemma_answer_to_get_stream(
    streams: Streams,
    stream_id: Option<usize>,
    result: Result<Option<GetStreamResponse>, ResponseError>,
)
    requires
        responses::answers_get_stream(streams, stream_id, result),
    ensures
        stream_id is None <==> result matches Ok(None),
        stream_id matches Some(slot) ==> {
            let slots = streams.items.slots@;
            if slot < slots.len() && slots[slot as int] is Some {
                let stream = slots[slot as int]->0;
                let topics = metadata::occupied(stream.topics.slots@);
                let own = responses::stream_error(stream);
                let inner = responses::topics_error(topics);
                match result {
                    Ok(Some(response)) => {
                        &&& own is None
                        &&& inner is None
                        &&& response.stream.shows(stream)
                        &&& responses::shows_topics(response.topics@, topics)
                    },
                    Ok(None) => false,
                    Err(error) => own == Some(error) || own is None && inner == Some(error),
                }
            } else {
                result matches Err(error) && error == ResponseError::InvalidIdentifier
            }
        },
{
}

/// A request for one topic is answered likewise; its partitions are shown with
/// it, or refused when one has a number that 32 bits do not hold.
pub proof fn lemma_answer_to_get_topic(
    streams: Streams,
    stream_id: Option<usize>,
    topic_id: Option<usize>,
    result: Result<Option<GetTopicResponse>, ResponseError>,
)
    requires
        responses::answers_get_topic(streams, stream_id, topic_id, result),
    ensures
        stream_id is None || topic_id is None <==> result matches Ok(None),
        stream_id matches Some(s) ==> topic_id matches Some(t) ==> {
            let slots = streams.items.slots@;
            let held = s < slots.len() && slots[s as int] is Some;
            let topic_slots = slots[s as int]->0.topics.slots@;
            if held && t < topic_slots.len() && topic_slots[t as int] is Some {
                let topic = topic_slots[t as int]->0;
                let own = responses::topic_error(topic);
                match result {
                    Ok(Some(response)) => {
                        &&& own is None
                        &&& responses::partition_ids_fit(topic.partitions@)
                        &&& response.topic.shows(topic)
                        &&& responses::shows_partitions(
                            response.partitions@,
                            streams,
                            s,
                            t,
                            topic.partitions@,
                        )
                    },
                    Ok(None) => false,
                    Err(error) => own == Some(error) || own is None
                        && !responses::partition_ids_fit(topic.partitions@) && error
                        == ResponseError::CountOutOfRange,
                }
            } else {
                result matches Err(error) && error == ResponseError::InvalidIdentifier
            }
        },
{
}

/// A request for the topics of a stream: one that resolved to nothing lists
/// none, one that resolved to an empty slot is refused, and else every topic is
/// shown, or the request refused for what is wrong with them.
pub proof fn lemma_answer_to_get_topics(
    streams: Streams,
    stream_id: Option<usize>,
    result: Result<GetTopicsResponse, ResponseError>,
)
    requires
        responses::answers_get_topics(streams, stream_id, result),
    ensures
        match stream_id {
            None => result matches Ok(response) && response.topics@.len() == 0,
            Some(slot) => {
                let slots = streams.items.slots@;
                if slot < slots.len() && slots[slot as int] is Some {
                    let topics = metadata::occupied(slots[slot as int]->0.topics.slots@);
                    match result {
                        Ok(response) => responses::topics_error(topics) is None
                            && responses::shows_topics(response.topics@, topics),
                        Err(error) => responses::topics_error(topics) == Some(error),
                    }
                } else {
                    result matches Err(error) && error == ResponseError::InvalidIdentifier
                }
            },
        },
{
}

// ---------------------------------------------------------------------------
// Users
// ---------------------------------------------------------------------------

/// A user is shown field by field, their options as they are encoded.
pub proof fn lemma_shown_user(response: UserResponse, user: User)
    ensures
        response.shows(user) <==> {
            &&& response.id == user.id
            &&& response.created_at == user.created_at
            &&& response.status == user.status
            &&& response.username@ == user.username.text@
            &&& user.options matches EncodedOptions::Encoded(encoded) && response.options@
                == encoded@
        },
        !user.username.fits_wire ==> accounts::user_error(user) == Some(
            ResponseError::InvalidFormat,
        ),
        user.username.fits_wire ==> match user.options {
            EncodedOptions::Encoded(_) => accounts::user_error(user) is None,
            EncodedOptions::Refused(code) => accounts::user_error(user) == Some(
                ResponseError::Refused(code),
            ),
        },
{
}

/// Users are refused with what is wrong with the first of them that cannot be
/// shown.
pub proof fn lemma_users_error_meaning(users: Seq<User>)
    ensures
        match accounts::users_error(users) {
            None => forall|i: int|
                0 <= i < users.len() ==> accounts::user_error(#[trigger] users[i]) is None,
            Some(error) => exists|i: int|
                {
                    &&& 0 <= i < users.len()
                    &&& accounts::user_error(#[trigger] users[i]) == Some(error)
                    &&& forall|j: int|
                        0 <= j < i ==> accounts::user_error(#[trigger] users[j]) is None
                },
        },
    decreases users.len(),
{
    if users.len() > 0 {
        let front = users.drop_last();
        let last = users.len() - 1;
        lemma_users_error_meaning(front);
        match accounts::users_error(front) {
            Some(error) => {
                let i = choose|i: int|
                    {
                        &&& 0 <= i < front.len()
                        &&& accounts::user_error(#[trigger] front[i]) == Some(error)
                        &&& forall|j: int|
                            0 <= j < i ==> accounts::user_error(#[trigger] front[j]) is None
                    };
                assert(users[i] == front[i]);
                assert forall|j: int| 0 <= j < i implies accounts::user_error(
                    #[trigger] users[j],
                ) is None by {
                    assert(front[j] == users[j]);
                }
            },
            None => {
                assert forall|j: int| 0 <= j < last implies accounts::user_error(
                    #[trigger] users[j],
                ) is None by {
                    assert(front[j] == users[j]);
                }
                assert(accounts::users_error(users) == accounts::user_error(users[last]));
            },
        }
    }
}

/// Users are shown one for one, in order.
pub proof fn lemma_shown_users(shown: Seq<UserResponse>, users: Seq<User>)
    ensures
        accounts::shows_users(shown, users) <==> shown.len() == users.len() && forall|i: int|
            0 <= i < users.len() ==> (#[trigger] shown[i]).shows(users[i]),
{
}

/// A request for one user: nothing where the identifier resolved to nothing,
/// a refusal where it resolved to an empty slot, else the user with exactly
/// their permissions, or what is wrong with them.
pub proof fn lemma_answer_to_get_user(
    users: Users,
    user_id: Option<usize>,
    result: Result<Option<UserDetailsResponse>, ResponseError>,
)
    requires
        accounts::answers_get_user(users, user_id, result),
    ensures
        user_id is None <==> result matches Ok(None),
        user_id matches Some(slot) ==> {
            let slots = users.items.slots@;
            if slot < slots.len() && slots[slot as int] is Some {
                let user = slots[slot as int]->0;
                match result {
                    Ok(Some(response)) => {
                        &&& accounts::user_error(user) is None
                        &&& response.user.shows(user)
                        &&& response.permissions is None <==> user.permissions is None
                        &&& response.permissions is Some ==> response.permissions->0@
                            == user.permissions->0@
                    },
                    Ok(None) => false,
                    Err(error) => accounts::user_error(user) == Some(error),
                }
            } else {
                result matches Err(error) && error == ResponseError::InvalidIdentifier
            }
        },
{
}

/// An access token is shown by its name and its expiry, 0 for none.
pub proof fn lemma_shown_token(response: PersonalAccessTokenResponse, token: PersonalAccessToken)
    ensures
        response.shows(token) <==> {
            &&& response.name@ == token.name.text@
            &&& token.expiry_at matches Some(micros) ==> response.expiry_at == micros
            &&& token.expiry_at is None ==> response.expiry_at == 0
        },
{
}

/// Tokens are shown one for one, in order; a user without a list has none.
pub proof fn lemma_shown_tokens(
    shown: Seq<PersonalAccessTokenResponse>,
    tokens: Seq<PersonalAccessToken>,
    users: Users,
    user_id: u32,
)
    ensures
        accounts::shows_tokens(shown, tokens) <==> shown.len() == tokens.len() && forall|i: int|
            0 <= i < tokens.len() ==> (#[trigger] shown[i]).shows(tokens[i]),
        accounts::token_names_fit(tokens) <==> forall|i: int|
            0 <= i < tokens.len() ==> (#[trigger] tokens[i]).name.fits_wire,
        users.personal_access_tokens@.contains_key(user_id) ==> users.tokens_of(user_id)
            == users.personal_access_tokens@[user_id]@,
        !users.personal_access_tokens@.contains_key(user_id) ==> users.tokens_of(user_id).len()
            == 0,
{
}

/// The tokens that can be sent are those whose names fit the wire, in their
/// order: `places` are where they stand, increasing.
pub proof fn lemma_sendable_meaning(tokens: Seq<PersonalAccessToken>) -> (places: Seq<int>)
    ensures
        places.len() == accounts::sendable(tokens).len(),
        forall|p: int, q: int| 0 <= p < q < places.len() ==> places[p] < places[q],
        forall|p: int|
            0 <= p < places.len() ==> {
                &&& 0 <= #[trigger] places[p] < tokens.len()
                &&& tokens[places[p]].name.fits_wire
                &&& accounts::sendable(tokens)[p] == tokens[places[p]]
            },
        forall|i: int|
            0 <= i < tokens.len() && (#[trigger] tokens[i]).name.fits_wire ==> places.contains(i),
    decreases tokens.len(),
{
    if tokens.len() == 0 {
        Seq::empty()
    } else {
        let front = tokens.drop_last();
        let last = tokens.len() - 1;
        let before = lemma_sendable_meaning(front);
        assert forall|i: int|
            0 <= i < last && (#[trigger] tokens[i]).name.fits_wire implies before.contains(i) by {
            assert(front[i] == tokens[i]);
        }
        if tokens[last].name.fits_wire {
            let places = before.push(last);
            assert forall|i: int|
                0 <= i < tokens.len() && (
                #[trigger] tokens[i]).name.fits_wire implies places.contains(i) by {
                if i < last {
                    let p = choose|p: int| 0 <= p < before.len() && before[p] == i;
                    assert(places[p] == i);
                } else {
                    assert(places[before.len() as int] == i);
                }
            }
            places
        } else {
            before
        }
    }
}

// ---------------------------------------------------------------------------
// Clients
// ---------------------------------------------------------------------------

/// A connected client is shown with the low 32 bits of its id, its user or the
/// largest number for none, its transport and address, and the number of the
/// groups of the replicated client it is bound to, none where it is bound to
/// none.
pub proof fn lemma_shown_client(
    response: ClientResponse,
    info: ConnectedClient,
    memberships: Memberships,
)
    ensures
        response.shows(info, memberships) <==> {
            &&& response.client_id == info.client_id as int % 4_294_967_296
            &&& info.user_id matches Some(id) ==> response.user_id == id
            &&& info.user_id is None ==> response.user_id == 0xffff_ffff
            &&& response.transport == info.transport
            &&& response.address@ == info.address@
            &&& info.vsr_client_id is None ==> response.consumer_groups_count == 0
            &&& info.vsr_client_id matches Some(client) ==> response.consumer_groups_count == (
            if memberships.by_client@.contains_key(client) {
                memberships.by_client@[client]@.len() as int % 4_294_967_296
            } else {
                0
            })
        },
{
}

/// The requesting client is shown from its session record, or, where it has
/// none, by its connection id, as no user over the first transport and with no
/// address. Its groups are exactly those of the replicated client that its
/// session is bound to.
pub proof fn lemma_shown_client_details(
    response: ClientDetailsResponse,
    record: Option<ConnectedClient>,
    client_id: u128,
    bound: Option<u128>,
    memberships: Memberships,
)
    ensures
        response.shows(record, client_id, bound, memberships) <==> {
            &&& response.consumer_groups@ == (if bound is Some
                && memberships.by_client@.contains_key(bound->0) {
                memberships.by_client@[bound->0]@
            } else {
                Seq::empty()
            })
            &&& response.client.consumer_groups_count == response.consumer_groups@.len() as int
                % 4_294_967_296
            &&& record matches Some(info) ==> {
                &&& response.client.client_id == info.client_id as int % 4_294_967_296
                &&& info.user_id matches Some(id) ==> response.client.user_id == id
                &&& info.user_id is None ==> response.client.user_id == 0xffff_ffff
                &&& response.client.transport == info.transport
                &&& response.client.address@ == info.address@
            }
            &&& record is None ==> {
                &&& response.client.client_id == client_id as int % 4_294_967_296
                &&& response.client.user_id == 0xffff_ffff
                &&& response.client.transport == 1
                &&& response.client.address@.len() == 0
            }
        },
{
}

// ---------------------------------------------------------------------------
// Statistics
// ---------------------------------------------------------------------------

/// A request for statistics is answered with the totals, the counts it was
/// given, the version, and everything the system reported; it is refused
/// exactly when something cannot be counted in 32 bits.
pub proof fn lemma_answer_to_stats(
    streams: Streams,
    consumer_groups_count: usize,
    clients_count: u32,
    system: SystemStats,
    version: ServerVersion,
    result: Result<StatsResponse, ResponseError>,
)
    requires
        stats::answers_stats(
            streams,
            consumer_groups_count,
            clients_count,
            system,
            version,
            result,
        ),
    ensures
        result is Ok <==> stats::counts_fit(metadata::occupied(streams.items.slots@))
            && consumer_groups_count <= 0xffff_ffff,
        result matches Err(error) ==> error == ResponseError::CountOutOfRange,
        result matches Ok(response) ==> {
            &&& response.totals == stats::totals(streams)
            &&& response.consumer_groups_count == consumer_groups_count
            &&& response.clients_count == clients_count
            &&& response.server_version@ == version.text@
            &&& response.server_semver == version.number
            &&& response.process_id == system.process_id
            &&& response.cpu_usage_bits == system.cpu_usage_bits
            &&& response.total_cpu_usage_bits == system.total_cpu_usage_bits
            &&& response.memory_usage == system.memory_usage
            &&& response.total_memory == system.total_memory
            &&& response.available_memory == system.available_memory
            &&& response.run_time == system.run_time
            &&& response.start_time == system.start_time
            &&& response.read_bytes == system.read_bytes
            &&& response.written_bytes == system.written_bytes
            &&& response.hostname@ == system.hostname@
            &&& response.os_name@ == system.os_name@
            &&& response.os_version@ == system.os_version@
            &&& response.kernel_version@ == system.kernel_version@
            &&& response.threads_count == system.threads_count
            &&& response.free_disk_space == system.free_disk_space
            &&& response.total_disk_space == system.total_disk_space
        },
{
}

// ---------------------------------------------------------------------------
// Commands
// ---------------------------------------------------------------------------

/// A consumer-group request: refused as a command where it does not decode,
/// with the error of its topic where that was refused, else answered with
/// nothing where nothing was found and with exactly what was found where
/// something was.
pub proof fn lemma_answer_to_group_lookup(
    request: Option<GroupLookup>,
    result: Result<NonReplicatedResponse, ResponseError>,
)
    requires
        dispatch::answers_group_lookup(request, result),
    ensures
        request is None ==> (result matches Err(error) && error == ResponseError::InvalidCommand),
        request matches Some(lookup) ==> match lookup.topic_refused {
            Some(refusal) => result matches Err(error) && error == refusal,
            None => match lookup.found {
                None => result matches Ok(NonReplicatedResponse::Empty),
                Some(encoded) => result matches Ok(
                    NonReplicatedResponse::Bytes(ResponseBody::Encoded(bytes)),
                ) && bytes@ == encoded@,
            },
        },
{
}

/// What commands are refused with before anything is looked up: a body that
/// does not decode is no command; reading access tokens takes a caller;
/// flushing is not available; a snapshot is not served here; any other command
/// is not available when it is a replicated one, and no command else.
pub proof fn lemma_refused_commands(
    node: NodeState,
    command: ReadCommand,
    user_id: Option<u32>,
    clients_count: u32,
    result: Result<NonReplicatedResponse, ResponseError>,
)
    requires
        dispatch::answers(node, command, user_id, clients_count, result),
    ensures
        match command {
            ReadCommand::GetStream(None) | ReadCommand::GetTopic(None) | ReadCommand::GetTopics(
                None,
            ) | ReadCommand::GetUser(None) | ReadCommand::GetConsumerGroup(None)
            | ReadCommand::GetConsumerGroups(None) | ReadCommand::GetStreams(false)
            | ReadCommand::GetPersonalAccessTokens(false) | ReadCommand::DescribeOptions(None)
            | ReadCommand::GetSnapshotFile => result matches Err(error) && error
                == ResponseError::InvalidCommand,
            ReadCommand::GetPersonalAccessTokens(true) => user_id is None ==> (result matches Err(
                error,
            ) && error == ResponseError::Unauthenticated),
            ReadCommand::FlushUnsavedBuffer => result matches Err(error) && error
                == ResponseError::FeatureUnavailable,
            ReadCommand::Other(replicated) => {
                &&& result is Err
                &&& replicated == Some(true) ==> result->Err_0 == ResponseError::FeatureUnavailable
                &&& replicated != Some(true) ==> result->Err_0 == ResponseError::InvalidCommand
            },
            _ => true,
        },
{
}

/// What commands are answered with once they decode: each with its own body,
/// made of what the node holds.
pub proof fn lemma_answered_commands(
    node: NodeState,
    command: ReadCommand,
    user_id: Option<u32>,
    clients_count: u32,
    result: Result<NonReplicatedResponse, ResponseError>,
)
    requires
        dispatch::answers(node, command, user_id, clients_count, result),
        result is Ok,
    ensures
        match command {
            ReadCommand::DescribeOptions(scope) => result->Ok_0 matches NonReplicatedResponse::Bytes(
                ResponseBody::Options(response),
            ) && dispatch::answers_describe_options(scope, node.topic_options, Ok(response)),
            ReadCommand::GetClusterMetadata(encoded) => result->Ok_0
                matches NonReplicatedResponse::Bytes(ResponseBody::Encoded(bytes)) && bytes@
                == encoded@,
            ReadCommand::GetStats => result->Ok_0 matches NonReplicatedResponse::Bytes(
                ResponseBody::Stats(response),
            ) && stats::answers_stats(
                node.streams,
                node.consumer_groups_count,
                clients_count,
                node.system,
                node.version,
                Ok(response),
            ),
            ReadCommand::GetStreams(_) => result->Ok_0 matches NonReplicatedResponse::Bytes(
                ResponseBody::Streams(response),
            ) && responses::shows_streams(
                response.streams@,
                metadata::occupied(node.streams.items.slots@),
            ),
            ReadCommand::GetStream(request) => request matches Some(stream_id) && match result->Ok_0 {
                NonReplicatedResponse::Empty => stream_id is None,
                NonReplicatedResponse::Bytes(ResponseBody::Stream(response)) =>
                    responses::answers_get_stream(node.streams, stream_id, Ok(Some(response))),
                _ => false,
            },
            ReadCommand::GetTopic(request) => request matches Some(target) && match result->Ok_0 {
                NonReplicatedResponse::Empty => target.stream_id is None || target.topic_id is None,
                NonReplicatedResponse::Bytes(ResponseBody::Topic(response)) =>
                    responses::answers_get_topic(
                    node.streams,
                    target.stream_id,
                    target.topic_id,
                    Ok(Some(response)),
                ),
                _ => false,
            },
            ReadCommand::GetTopics(request) => request matches Some(stream_id) && (
            result->Ok_0 matches NonReplicatedResponse::Bytes(ResponseBody::Topics(response))
                && responses::answers_get_topics(node.streams, stream_id, Ok(response))),
            ReadCommand::GetUsers => result->Ok_0 matches NonReplicatedResponse::Bytes(
                ResponseBody::Users(response),
            ) && accounts::shows_users(
                response.users@,
                metadata::occupied(node.users.items.slots@),
            ),
            ReadCommand::GetUser(request) => request matches Some(slot) && match result->Ok_0 {
                NonReplicatedResponse::Empty => slot is None,
                NonReplicatedResponse::Bytes(ResponseBody::User(response)) =>
                    accounts::answers_get_user(node.users, slot, Ok(Some(response))),
                _ => false,
            },
            ReadCommand::GetPersonalAccessTokens(_) => user_id matches Some(caller) && (
            result->Ok_0 matches NonReplicatedResponse::Bytes(
                ResponseBody::PersonalAccessTokens(response),
            ) && accounts::shows_tokens(response.tokens@, node.users.tokens_of(caller))),
            ReadCommand::GetConsumerGroup(request) => dispatch::answers_group_lookup(
                request,
                result,
            ),
            ReadCommand::GetConsumerGroups(request) => dispatch::answers_group_lookup(
                request,
                result,
            ),
            _ => false,
        },
{
}

/// What commands that decode are refused with: nothing but what is wrong with
/// what they read. Metadata of the cluster, and the options of streams and
/// users, are never refused.
pub proof fn lemma_refused_reads(
    node: NodeState,
    command: ReadCommand,
    user_id: Option<u32>,
    clients_count: u32,
    result: Result<NonReplicatedResponse, ResponseError>,
)
    requires
        dispatch::answers(node, command, user_id, clients_count, result),
        result is Err,
    ensures
        match command {
            ReadCommand::DescribeOptions(Some(OptionsScope::Topic)) => {
                &&& !node.topic_options.keys.fit_wire()
                &&& result->Err_0 == ResponseError::InvalidFormat
            },
            ReadCommand::DescribeOptions(Some(OptionsScope::Stream)) => false,
            ReadCommand::DescribeOptions(Some(OptionsScope::User)) => false,
            ReadCommand::DescribeOptions(Some(OptionsScope::Unknown)) => result->Err_0
                == ResponseError::InvalidCommand,
            ReadCommand::GetClusterMetadata(_) => false,
            ReadCommand::GetStats => result->Err_0 == ResponseError::CountOutOfRange && (
            !stats::counts_fit(metadata::occupied(node.streams.items.slots@))
                || node.consumer_groups_count > 0xffff_ffff),
            ReadCommand::GetStreams(true) => responses::streams_error(
                metadata::occupied(node.streams.items.slots@),
            ) == Some(result->Err_0),
            ReadCommand::GetStream(Some(stream_id)) => responses::answers_get_stream(
                node.streams,
                stream_id,
                Err(result->Err_0),
            ),
            ReadCommand::GetTopic(Some(target)) => responses::answers_get_topic(
                node.streams,
                target.stream_id,
                target.topic_id,
                Err(result->Err_0),
            ),
            ReadCommand::GetTopics(Some(stream_id)) => responses::answers_get_topics(
                node.streams,
                stream_id,
                Err(result->Err_0),
            ),
            ReadCommand::GetUsers => accounts::users_error(
                metadata::occupied(node.users.items.slots@),
            ) == Some(result->Err_0),
            ReadCommand::GetUser(Some(slot)) => accounts::answers_get_user(
                node.users,
                slot,
                Err(result->Err_0),
            ),
            ReadCommand::GetPersonalAccessTokens(true) => user_id matches Some(caller) ==> {
                &&& !accounts::token_names_fit(node.users.tokens_of(caller))
                &&& result->Err_0 == ResponseError::InvalidFormat
            },
            _ => true,
        },
{
}

/// The options of a scope: the catalog for topics, none for streams and users,
/// and a refusal for any other scope and for a request that does not decode.
pub proof fn lemma_answer_to_describe_options(
    scope: Option<OptionsScope>,
    build: TopicOptionBuild,
    result: Result<DescribeOptionsResponse, ResponseError>,
)
    requires
        dispatch::answers_describe_options(scope, build, result),
    ensures
        scope == Some(OptionsScope::Topic) ==> {
            &&& result is Ok <==> build.keys.fit_wire()
            &&& result matches Err(error) ==> error == ResponseError::InvalidFormat
            &&& result matches Ok(response) ==> options_catalog::descriptor_views(
                response.entries@,
            ) == options_catalog::topic_options(build)
        },
        scope == Some(OptionsScope::Stream) || scope == Some(OptionsScope::User) ==> (
        result matches Ok(response) && response.entries@.len() == 0),
        scope == Some(OptionsScope::Unknown) || scope is None ==> (result matches Err(error)
            && error == ResponseError::InvalidCommand),
{
}

/// The primary that is advertised is the one of this shard's consensus. There
/// is none exactly without consensus, or where this replica ceded the role that
/// its own view assigns it.
pub proof fn lemma_advertised_meaning(consensus: Option<ConsensusSight>)
    ensures
        dispatch::advertised(consensus) is None <==> consensus is None || (
        consensus->0.has_ceded_primaryship && consensus->0.primary == consensus->0.replica),
        dispatch::advertised(consensus) matches Some(primary) ==> primary == consensus->0.primary,
{
}

} // verus!
