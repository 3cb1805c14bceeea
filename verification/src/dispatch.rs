//! The non-replicated read path: which builder answers a command, and what a
//! command that none answers is told.
//!
//! Assembles `get_stream(s)` / `get_topic(s)` / `get_user(s)` /
//! `get_personal_access_tokens` / consumer-group / stats / options responses
//! from committed metadata. Decoding a request, resolving the identifiers in
//! it and encoding the response are the codec's; a [`ReadCommand`] holds what
//! the codec made of a request.

use vstd::prelude::*;

use crate::accounts;
use crate::accounts::{
    build_get_user_response, build_get_users_response, personal_access_tokens_response,
    GetPersonalAccessTokensResponse, GetUsersResponse, UserDetailsResponse,
};
use crate::error::ResponseError;
use crate::metadata::{Streams, Users};
use crate::options_catalog;
use crate::options_catalog::{topic_option_descriptors, OptionDescriptor, TopicOptionBuild};
use crate::responses;
use crate::responses::{
    build_get_stream_response, build_get_streams_response, build_get_topic_response,
    build_get_topics_response, copied, GetStreamResponse, GetStreamsResponse, GetTopicResponse,
    GetTopicsResponse,
};
use crate::stats;
use crate::stats::{build_stats_response, ServerVersion, StatsResponse, SystemStats};

verus! {

broadcast use vstd::std_specs::hash::group_hash_axioms;

// ---------------------------------------------------------------------------
// Cluster metadata
// ---------------------------------------------------------------------------

/// What a shard with consensus knows of the primary.
#[derive(Debug, Clone, Copy, PartialEq, Eq, Structural)]
pub struct ConsensusSight {
    /// The replica that the current view makes primary.
    pub primary: u8,
    /// This replica.
    pub replica: u8,
    /// Whether this replica ceded the primaryship its view assigns it.
    pub has_ceded_primaryship: bool,
}

/// The primary to advertise: the one of this shard's consensus, unless that is
/// this replica after it ceded the role. Without consensus there is none.
pub open spec fn advertised(consensus: Option<ConsensusSight>) -> Option<u8> {
    match consensus {
        Some(sight) => if sight.has_ceded_primaryship && sight.primary == sight.replica {
            None
        } else {
            Some(sight.primary)
        },
        None => None,
    }
}

/// The primary that cluster metadata marks as leader.
///
/// The marking comes from this shard's consensus view; a shard without
/// consensus still serves the full roster, only with no node marked leader. A
/// restarted replica that ceded the primaryship its stale view assigns it does
/// not advertise itself as leader: clients would pin to a node that never
/// heartbeats. It reports no leader until the election resolves the role.
pub fn advertised_primary(consensus: Option<ConsensusSight>) -> (primary: Option<u8>)
    ensures
        primary == advertised(consensus),
        primary is None <==> consensus is None || (consensus->0.has_ceded_primaryship
            && consensus->0.primary == consensus->0.replica),
        primary matches Some(advertised) ==> advertised == consensus->0.primary,
        consensus is None ==> primary is None,
        consensus matches Some(sight) ==> sight.has_ceded_primaryship ==> primary != Some(
            sight.replica,
        ),
{
    match consensus {
        Some(sight) => if sight.has_ceded_primaryship && sight.primary == sight.replica {
            None
        } else {
            Some(sight.primary)
        },
        None => None,
    }
}

// ---------------------------------------------------------------------------
// Options
// ---------------------------------------------------------------------------

/// The resource whose options are asked for.
#[derive(Debug, Clone, Copy, PartialEq, Eq, Structural)]
pub enum OptionsScope {
    Topic,
    Stream,
    User,
    /// None that is known.
    Unknown,
}

/// The options of one scope.
#[derive(Debug, PartialEq, Eq)]
pub struct DescribeOptionsResponse {
    pub entries: Vec<OptionDescriptor>,
}

/// What a request for the options of a scope is answered with; `scope` is
/// `None` when the request does not decode.
pub open spec fn answers_describe_options(
    scope: Option<OptionsScope>,
    build: TopicOptionBuild,
    result: Result<DescribeOptionsResponse, ResponseError>,
) -> bool {
    match scope {
        Some(OptionsScope::Topic) => match result {
            Ok(response) => build.keys.fit_wire() && options_catalog::descriptor_views(
                response.entries@,
            ) == options_catalog::topic_options(build),
            Err(error) => !build.keys.fit_wire() && error == ResponseError::InvalidFormat,
        },
        Some(OptionsScope::Stream) | Some(OptionsScope::User) => result matches Ok(response)
            && response.entries@.len() == 0,
        Some(OptionsScope::Unknown) | None => result == Err::<DescribeOptionsResponse, _>(
            ResponseError::InvalidCommand,
        ),
    }
}

/// Serve the option catalog for one resource scope.
///
/// Streams and users have no catalog keys yet, so their scopes return empty.
pub fn build_describe_options_response(
    scope: Option<OptionsScope>,
    build: &TopicOptionBuild,
) -> (result: Result<DescribeOptionsResponse, ResponseError>)
    ensures
        answers_describe_options(scope, *build, result),
{
    match scope {
        Some(OptionsScope::Topic) => match topic_option_descriptors(build) {
            Ok(entries) => Ok(DescribeOptionsResponse { entries }),
            Err(error) => Err(error),
        },
        Some(OptionsScope::Stream) | Some(OptionsScope::User) => Ok(
            DescribeOptionsResponse { entries: Vec::new() },
        ),
        Some(OptionsScope::Unknown) | None => Err(ResponseError::InvalidCommand),
    }
}

// ---------------------------------------------------------------------------
// Commands and responses
// ---------------------------------------------------------------------------

/// What a consumer-group request found: whether its topic exists, and what it
/// asked for, encoded.
#[derive(Debug)]
pub struct GroupLookup {
    /// The error the topic was refused with.
    pub topic_refused: Option<ResponseError>,
    pub found: Option<Vec<u8>>,
}

/// The slots that the identifiers of a topic request resolve to.
#[derive(Debug, Clone, Copy, PartialEq, Eq, Structural)]
pub struct TopicTarget {
    pub stream_id: Option<usize>,
    pub topic_id: Option<usize>,
}

/// A read command. A request is `None` when its body does not decode; an
/// identifier in it is `None` when it resolves to nothing.
#[derive(Debug)]
pub enum ReadCommand {
    DescribeOptions(Option<OptionsScope>),
    /// With the metadata of the cluster, encoded.
    GetClusterMetadata(Vec<u8>),
    GetStats,
    GetStream(Option<Option<usize>>),
    /// With whether the body decodes.
    GetStreams(bool),
    GetTopic(Option<TopicTarget>),
    GetTopics(Option<Option<usize>>),
    GetUsers,
    GetUser(Option<Option<usize>>),
    /// With whether the body decodes.
    GetPersonalAccessTokens(bool),
    GetConsumerGroup(Option<GroupLookup>),
    GetConsumerGroups(Option<GroupLookup>),
    FlushUnsavedBuffer,
    GetSnapshotFile,
    /// Any other command, with whether it is replicated where the command
    /// table lists it.
    Other(Option<bool>),
}

/// The body of a response.
#[derive(Debug, PartialEq, Eq)]
pub enum ResponseBody {
    Options(DescribeOptionsResponse),
    Stats(StatsResponse),
    Stream(GetStreamResponse),
    Streams(GetStreamsResponse),
    Topic(GetTopicResponse),
    Topics(GetTopicsResponse),
    Users(GetUsersResponse),
    User(UserDetailsResponse),
    PersonalAccessTokens(GetPersonalAccessTokensResponse),
    /// One that came encoded.
    Encoded(Vec<u8>),
}

/// What a read is answered with. `Empty` means that it resolved to nothing.
#[derive(Debug, PartialEq, Eq)]
pub enum NonReplicatedResponse {
    Empty,
    Bytes(ResponseBody),
}

/// What the node that serves reads holds.
#[derive(Debug)]
pub struct NodeState {
    pub streams: Streams,
    pub users: Users,
    pub consumer_groups_count: usize,
    pub system: SystemStats,
    pub version: ServerVersion,
    pub topic_options: TopicOptionBuild,
}

/// Whether `result` is the error `error`.
pub open spec fn refused(
    result: Result<NonReplicatedResponse, ResponseError>,
    error: ResponseError,
) -> bool {
    result matches Err(given) && given == error
}

/// What a consumer-group request is answered with.
pub open spec fn answers_group_lookup(
    request: Option<GroupLookup>,
    result: Result<NonReplicatedResponse, ResponseError>,
) -> bool {
    match request {
        None => refused(result, ResponseError::InvalidCommand),
        Some(lookup) => match lookup.topic_refused {
            Some(error) => refused(result, error),
            None => match lookup.found {
                None => result matches Ok(NonReplicatedResponse::Empty),
                Some(encoded) => result matches Ok(
                    NonReplicatedResponse::Bytes(ResponseBody::Encoded(bytes)),
                ) && bytes@ == encoded@,
            },
        },
    }
}

fn answer_group_lookup(request: Option<&GroupLookup>) -> (result: Result<
    NonReplicatedResponse,
    ResponseError,
>)
    ensures
        answers_group_lookup(
            match request {
                Some(lookup) => Some(*lookup),
                None => None,
            },
            result,
        ),
{
    match request {
        None => Err(ResponseError::InvalidCommand),
        Some(lookup) => match lookup.topic_refused {
            Some(error) => Err(error),
            None => match &lookup.found {
                None => Ok(NonReplicatedResponse::Empty),
                Some(encoded) => Ok(
                    NonReplicatedResponse::Bytes(ResponseBody::Encoded(copied(encoded))),
                ),
            },
        },
    }
}

/// One consumer group; empty when there is none.
pub fn build_consumer_group_response(request: Option<&GroupLookup>) -> (result: Result<
    NonReplicatedResponse,
    ResponseError,
>)
    ensures
        answers_group_lookup(
            match request {
                Some(lookup) => Some(*lookup),
                None => None,
            },
            result,
        ),
{
    answer_group_lookup(request)
}

/// The consumer groups of a topic; empty when there is no list of them.
pub fn build_consumer_groups_response(request: Option<&GroupLookup>) -> (result: Result<
    NonReplicatedResponse,
    ResponseError,
>)
    ensures
        answers_group_lookup(
            match request {
                Some(lookup) => Some(*lookup),
                None => None,
            },
            result,
        ),
{
    answer_group_lookup(request)
}

/// What `command` is answered with. `user_id` is the authenticated caller and
/// counts only where the read is scoped to its caller; `clients_count` is the
/// number of connected clients over all shards and counts only for
/// statistics.
pub open spec fn answers(
    node: NodeState,
    command: ReadCommand,
    user_id: Option<u32>,
    clients_count: u32,
    result: Result<NonReplicatedResponse, ResponseError>,
) -> bool {
    match command {
        ReadCommand::DescribeOptions(scope) => match result {
            Ok(NonReplicatedResponse::Bytes(ResponseBody::Options(response))) =>
                answers_describe_options(scope, node.topic_options, Ok(response)),
            Ok(_) => false,
            Err(error) => answers_describe_options(scope, node.topic_options, Err(error)),
        },
        ReadCommand::GetClusterMetadata(encoded) => result matches Ok(
            NonReplicatedResponse::Bytes(ResponseBody::Encoded(bytes)),
        ) && bytes@ == encoded@,
        ReadCommand::GetStats => match result {
            Ok(NonReplicatedResponse::Bytes(ResponseBody::Stats(response))) => stats::answers_stats(
                node.streams,
                node.consumer_groups_count,
                clients_count,
                node.system,
                node.version,
                Ok(response),
            ),
            Ok(_) => false,
            Err(error) => stats::answers_stats(
                node.streams,
                node.consumer_groups_count,
                clients_count,
                node.system,
                node.version,
                Err(error),
            ),
        },
        ReadCommand::GetStream(None) => refused(result, ResponseError::InvalidCommand),
        ReadCommand::GetStream(Some(stream_id)) => match result {
            Ok(NonReplicatedResponse::Empty) => responses::answers_get_stream(
                node.streams,
                stream_id,
                Ok(None),
            ),
            Ok(NonReplicatedResponse::Bytes(ResponseBody::Stream(response))) =>
                responses::answers_get_stream(node.streams, stream_id, Ok(Some(response))),
            Ok(_) => false,
            Err(error) => responses::answers_get_stream(node.streams, stream_id, Err(error)),
        },
        ReadCommand::GetStreams(decoded) => if !decoded {
            refused(result, ResponseError::InvalidCommand)
        } else {
            let items = node.streams.items.values();
            match result {
                Ok(NonReplicatedResponse::Bytes(ResponseBody::Streams(response))) =>
                    responses::streams_error(items) is None && responses::shows_streams(
                    response.streams@,
                    items,
                ),
                Ok(_) => false,
                Err(error) => responses::streams_error(items) == Some(error),
            }
        },
        ReadCommand::GetTopic(None) => refused(result, ResponseError::InvalidCommand),
        ReadCommand::GetTopic(Some(target)) => match result {
            Ok(NonReplicatedResponse::Empty) => responses::answers_get_topic(
                node.streams,
                target.stream_id,
                target.topic_id,
                Ok(None),
            ),
            Ok(NonReplicatedResponse::Bytes(ResponseBody::Topic(response))) =>
                responses::answers_get_topic(
                node.streams,
                target.stream_id,
                target.topic_id,
                Ok(Some(response)),
            ),
            Ok(_) => false,
            Err(error) => responses::answers_get_topic(
                node.streams,
                target.stream_id,
                target.topic_id,
                Err(error),
            ),
        },
        ReadCommand::GetTopics(None) => refused(result, ResponseError::InvalidCommand),
        ReadCommand::GetTopics(Some(stream_id)) => match result {
            Ok(NonReplicatedResponse::Bytes(ResponseBody::Topics(response))) =>
                responses::answers_get_topics(node.streams, stream_id, Ok(response)),
            Ok(_) => false,
            Err(error) => responses::answers_get_topics(node.streams, stream_id, Err(error)),
        },
        ReadCommand::GetUsers => {
            let items = node.users.items.values();
            match result {
                Ok(NonReplicatedResponse::Bytes(ResponseBody::Users(response))) =>
                    accounts::users_error(items) is None && accounts::shows_users(
                    response.users@,
                    items,
                ),
                Ok(_) => false,
                Err(error) => accounts::users_error(items) == Some(error),
            }
        },
        ReadCommand::GetUser(None) => refused(result, ResponseError::InvalidCommand),
        ReadCommand::GetUser(Some(slot)) => match result {
            Ok(NonReplicatedResponse::Empty) => accounts::answers_get_user(
                node.users,
                slot,
                Ok(None),
            ),
            Ok(NonReplicatedResponse::Bytes(ResponseBody::User(response))) =>
                accounts::answers_get_user(node.users, slot, Ok(Some(response))),
            Ok(_) => false,
            Err(error) => accounts::answers_get_user(node.users, slot, Err(error)),
        },
        ReadCommand::GetPersonalAccessTokens(decoded) => if !decoded {
            refused(result, ResponseError::InvalidCommand)
        } else {
            match user_id {
                None => refused(result, ResponseError::Unauthenticated),
                Some(caller) => {
                    let tokens = node.users.tokens_of(caller);
                    match result {
                        Ok(
                            NonReplicatedResponse::Bytes(
                                ResponseBody::PersonalAccessTokens(response),
                            ),
                        ) => accounts::token_names_fit(tokens) && accounts::shows_tokens(
                            response.tokens@,
                            tokens,
                        ),
                        Ok(_) => false,
                        Err(error) => !accounts::token_names_fit(tokens) && error
                            == ResponseError::InvalidFormat,
                    }
                },
            }
        },
        ReadCommand::GetConsumerGroup(request) => answers_group_lookup(request, result),
        ReadCommand::GetConsumerGroups(request) => answers_group_lookup(request, result),
        ReadCommand::FlushUnsavedBuffer => refused(result, ResponseError::FeatureUnavailable),
        ReadCommand::GetSnapshotFile => refused(result, ResponseError::InvalidCommand),
        ReadCommand::Other(replicated) => refused(
            result,
            if replicated == Some(true) {
                ResponseError::FeatureUnavailable
            } else {
                ResponseError::InvalidCommand
            },
        ),
    }
}

/// The access tokens of `user_id`.
fn answer_personal_access_tokens(users: &Users, user_id: Option<u32>) -> (result: Result<
    NonReplicatedResponse,
    ResponseError,
>)
    ensures
        match user_id {
            None => refused(result, ResponseError::Unauthenticated),
            Some(caller) => match result {
                Ok(
                    NonReplicatedResponse::Bytes(ResponseBody::PersonalAccessTokens(response)),
                ) => accounts::token_names_fit(users.tokens_of(caller)) && accounts::shows_tokens(
                    response.tokens@,
                    users.tokens_of(caller),
                ),
                Ok(_) => false,
                Err(error) => !accounts::token_names_fit(users.tokens_of(caller)) && error
                    == ResponseError::InvalidFormat,
            },
        },
{
    let caller = match user_id {
        Some(caller) => caller,
        None => {
            return Err(ResponseError::Unauthenticated);
        },
    };
    let none = Vec::new();
    let tokens = match users.personal_access_tokens.get(&caller) {
        Some(tokens) => tokens,
        None => &none,
    };
    assert(tokens@ =~= users.tokens_of(caller));
    match personal_access_tokens_response(tokens) {
        Ok(response) => Ok(
            NonReplicatedResponse::Bytes(ResponseBody::PersonalAccessTokens(response)),
        ),
        Err(error) => Err(error),
    }
}

/// Answer a read command.
///
/// `user_id` is the authenticated caller, used only by the identity-scoped
/// reads; every other arm ignores it. A missing caller there is refused rather
/// than served another scope. Flushing on demand is denied honestly, since an
/// empty success would attest a durability that was never given. A snapshot is
/// collected elsewhere, so reaching it here is a routing bug.
pub fn build_non_replicated_response(
    node: &NodeState,
    command: &ReadCommand,
    user_id: Option<u32>,
    clients_count: u32,
) -> (result: Result<NonReplicatedResponse, ResponseError>)
    ensures
        answers(*node, *command, user_id, clients_count, result),
{
    match command {
        ReadCommand::DescribeOptions(scope) => match build_describe_options_response(
            *scope,
            &node.topic_options,
        ) {
            Ok(response) => Ok(NonReplicatedResponse::Bytes(ResponseBody::Options(response))),
            Err(error) => Err(error),
        },
        ReadCommand::GetClusterMetadata(encoded) => Ok(
            NonReplicatedResponse::Bytes(ResponseBody::Encoded(copied(encoded))),
        ),
        ReadCommand::GetStats => match build_stats_response(
            &node.streams,
            node.consumer_groups_count,
            clients_count,
            &node.system,
            &node.version,
        ) {
            Ok(response) => Ok(NonReplicatedResponse::Bytes(ResponseBody::Stats(response))),
            Err(error) => Err(error),
        },
        ReadCommand::GetStream(request) => match request {
            None => Err(ResponseError::InvalidCommand),
            Some(stream_id) => match build_get_stream_response(&node.streams, *stream_id) {
                Ok(Some(response)) => Ok(
                    NonReplicatedResponse::Bytes(ResponseBody::Stream(response)),
                ),
                Ok(None) => Ok(NonReplicatedResponse::Empty),
                Err(error) => Err(error),
            },
        },
        ReadCommand::GetStreams(decoded) => if *decoded {
            match build_get_streams_response(&node.streams) {
                Ok(response) => Ok(
                    NonReplicatedResponse::Bytes(ResponseBody::Streams(response)),
                ),
                Err(error) => Err(error),
            }
        } else {
            Err(ResponseError::InvalidCommand)
        },
        ReadCommand::GetTopic(request) => match request {
            None => Err(ResponseError::InvalidCommand),
            Some(target) => match build_get_topic_response(
                &node.streams,
                target.stream_id,
                target.topic_id,
            ) {
                Ok(Some(response)) => Ok(
                    NonReplicatedResponse::Bytes(ResponseBody::Topic(response)),
                ),
                Ok(None) => Ok(NonReplicatedResponse::Empty),
                Err(error) => Err(error),
            },
        },
        ReadCommand::GetTopics(request) => match request {
            None => Err(ResponseError::InvalidCommand),
            Some(stream_id) => match build_get_topics_response(&node.streams, *stream_id) {
                Ok(response) => Ok(NonReplicatedResponse::Bytes(ResponseBody::Topics(response))),
                Err(error) => Err(error),
            },
        },
        ReadCommand::GetUsers => match build_get_users_response(&node.users) {
            Ok(response) => Ok(NonReplicatedResponse::Bytes(ResponseBody::Users(response))),
            Err(error) => Err(error),
        },
        ReadCommand::GetUser(request) => match request {
            None => Err(ResponseError::InvalidCommand),
            Some(slot) => match build_get_user_response(&node.users, *slot) {
                Ok(Some(response)) => Ok(
                    NonReplicatedResponse::Bytes(ResponseBody::User(response)),
                ),
                Ok(None) => Ok(NonReplicatedResponse::Empty),
                Err(error) => Err(error),
            },
        },
        ReadCommand::GetPersonalAccessTokens(decoded) => if *decoded {
            answer_personal_access_tokens(&node.users, user_id)
        } else {
            Err(ResponseError::InvalidCommand)
        },
        ReadCommand::GetConsumerGroup(request) => build_consumer_group_response(request.as_ref()),
        ReadCommand::GetConsumerGroups(request) => build_consumer_groups_response(
            request.as_ref(),
        ),
        ReadCommand::FlushUnsavedBuffer => Err(ResponseError::FeatureUnavailable),
        ReadCommand::GetSnapshotFile => Err(ResponseError::InvalidCommand),
        ReadCommand::Other(replicated) => match replicated {
            Some(true) => Err(ResponseError::FeatureUnavailable),
            _ => Err(ResponseError::InvalidCommand),
        },
    }
}

/// Only a named lookup is answered as empty, and only when it resolved to
/// nothing: a command that no builder answers is never told that it succeeded.
pub proof fn lemma_empty_means_resolved_to_nothing(
    node: NodeState,
    command: ReadCommand,
    user_id: Option<u32>,
    clients_count: u32,
    result: Result<NonReplicatedResponse, ResponseError>,
)
    requires
        answers(node, command, user_id, clients_count, result),
        result matches Ok(NonReplicatedResponse::Empty),
    ensures
        match command {
            ReadCommand::GetStream(Some(None)) => true,
            ReadCommand::GetUser(Some(None)) => true,
            ReadCommand::GetTopic(Some(target)) => target.stream_id is None || target.topic_id
                is None,
            ReadCommand::GetConsumerGroup(Some(lookup)) => lookup.found is None,
            ReadCommand::GetConsumerGroups(Some(lookup)) => lookup.found is None,
            _ => false,
        },
{
}

} // verus!
