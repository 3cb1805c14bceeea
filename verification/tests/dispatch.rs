use std::collections::HashMap;

use message_dedup::dispatch::{
    advertised_primary, build_consumer_group_response, build_consumer_groups_response,
    build_describe_options_response, build_non_replicated_response, ConsensusSight, GroupLookup,
    NodeState, NonReplicatedResponse, OptionsScope, ReadCommand, ResponseBody, TopicTarget,
};
use message_dedup::error::ResponseError;
use message_dedup::metadata::{
    EncodedOptions, Name, PersonalAccessToken, Slots, StatsRegistry, Stream, Streams, User, Users,
    Volume,
};
use message_dedup::options_catalog::{
    topic_option_descriptors, TopicOptionBounds, TopicOptionBuild, TopicOptionDefaults,
    TopicOptionKeys, ValueKinds,
};
use message_dedup::stats::{ServerVersion, SystemStats};

fn name(text: &str) -> Name {
    Name {
        text: text.to_string(),
        fits_wire: true,
    }
}

fn build() -> TopicOptionBuild {
    TopicOptionBuild {
        keys: TopicOptionKeys {
            compression_algorithm: name("compression_algorithm"),
            message_expiry: name("message_expiry"),
            max_topic_size: name("max_topic_size"),
            segment_size: name("segment_size"),
            durability: name("durability"),
            consumer_offset_durability: name("consumer_offset_durability"),
            messages_required_to_save: name("messages_required_to_save"),
            size_of_messages_required_to_save: name("size_of_messages_required_to_save"),
            preallocate_segments: name("preallocate_segments"),
            dedup_window: name("dedup_window"),
            dedup_header: name("dedup_header"),
        },
        kinds: ValueKinds {
            string: 2,
            boolean: 3,
            uint32: 11,
            uint64: 12,
        },
        defaults: TopicOptionDefaults {
            message_expiry: u64::MAX,
            max_topic_size: 0x0102_0304_0506_0708,
            segment_size: 1_073_741_824,
            messages_required_to_save: 1_024,
            size_of_messages_required_to_save: 1_048_576,
            preallocate_segments: true,
        },
        bounds: TopicOptionBounds {
            min_segment_size: 512,
            max_segment_size: 10_737_418_240,
            max_messages_required_to_save: 100,
            max_size_of_messages_required_to_save: 4_294_967_296,
            max_preallocated_topic_bytes: 0,
        },
    }
}

fn node() -> NodeState {
    NodeState {
        streams: Streams {
            items: Slots {
                slots: vec![Some(Stream {
                    id: 0,
                    name: name("orders"),
                    created_at: 3,
                    options: EncodedOptions::Encoded(Vec::new()),
                    stats: Volume {
                        size_bytes: 1,
                        messages_count: 2,
                    },
                    topics: Slots { slots: Vec::new() },
                })],
            },
            stats_registry: StatsRegistry::new(),
        },
        users: Users {
            items: Slots {
                slots: vec![Some(User {
                    id: 0,
                    created_at: 1,
                    status: 1,
                    username: name("root"),
                    options: EncodedOptions::Encoded(Vec::new()),
                    permissions: None,
                })],
            },
            personal_access_tokens: HashMap::from([(
                0,
                vec![PersonalAccessToken {
                    name: name("ci"),
                    expiry_at: Some(44),
                }],
            )]),
        },
        consumer_groups_count: 2,
        system: SystemStats {
            process_id: 1,
            cpu_usage_bits: 0,
            total_cpu_usage_bits: 0,
            memory_usage: 0,
            total_memory: 0,
            available_memory: 0,
            run_time: 0,
            start_time: 0,
            read_bytes: 0,
            written_bytes: 0,
            hostname: String::new(),
            os_name: String::new(),
            os_version: String::new(),
            kernel_version: String::new(),
            threads_count: 0,
            free_disk_space: 0,
            total_disk_space: 0,
        },
        version: ServerVersion {
            text: "1".to_string(),
            number: None,
        },
        topic_options: build(),
    }
}

fn ask(command: ReadCommand) -> Result<NonReplicatedResponse, ResponseError> {
    build_non_replicated_response(&node(), &command, Some(0), 6)
}

#[test]
fn the_catalog_lists_every_option_in_order() {
    let entries = topic_option_descriptors(&build()).unwrap();
    let keys: Vec<&str> = entries.iter().map(|entry| entry.key.as_str()).collect();
    assert_eq!(
        keys,
        vec![
            "compression_algorithm",
            "message_expiry",
            "max_topic_size",
            "segment_size",
            "durability",
            "consumer_offset_durability",
            "messages_required_to_save",
            "size_of_messages_required_to_save",
            "preallocate_segments",
            "dedup_window",
            "dedup_header",
        ]
    );
    let kinds: Vec<u8> = entries.iter().map(|entry| entry.kind).collect();
    assert_eq!(kinds, vec![2, 12, 12, 12, 2, 2, 11, 12, 3, 12, 2]);
    assert_eq!(entries[0].default_value, b"none");
    assert_eq!(entries[1].default_value, vec![0xff; 8]);
    assert_eq!(entries[2].default_value, vec![8, 7, 6, 5, 4, 3, 2, 1]);
    assert_eq!(entries[4].default_value, b"replicated");
    assert_eq!(entries[5].default_value, b"replicated");
    assert_eq!(entries[6].default_value, vec![0, 4, 0, 0]);
    assert_eq!(entries[8].default_value, vec![1]);
    assert_eq!(entries[9].default_value, vec![0; 8]);
    assert!(entries[10].default_value.is_empty());
}

#[test]
fn the_catalog_words_the_bounds() {
    let entries = topic_option_descriptors(&build()).unwrap();
    assert_eq!(
        entries[1].description,
        "Message expiry in microseconds, or a humantime string (e.g. 7 days)"
    );
    assert_eq!(
        entries[3].description,
        "Segment size in bytes, or a byte-size string (e.g. 128 MiB); a 512-byte \
         multiple within 512..=10737418240"
    );
    assert_eq!(
        entries[6].description,
        "Ordinary message-count flush trigger; 1..=100. Required persistence, \
         capacity pressure, and lifecycle operations can flush earlier"
    );
    assert_eq!(
        entries[7].description,
        "Flush the journal once it holds this many bytes, or a byte-size \
         string; whichever threshold trips first flushes. At most 4294967296"
    );
    assert!(entries[8]
        .description
        .ends_with("segment_size * partitions_count is capped at 0 bytes per create"));
    assert_eq!(
        entries[9].description,
        "Drop a message whose dedup_header value was already appended to the same \
         partition within this window: micros or a humantime string (5m). \
         0 disables deduplication. At most 86400000000 micros. Requires dedup_header"
    );
    assert_eq!(
        entries[10].description,
        "User-header key whose value identifies a message for dedup_window, \
         matched byte for byte, 1..=64 bytes. Messages without it are never \
         deduplicated"
    );
}

#[test]
fn a_key_the_wire_cannot_carry_refuses_the_catalog() {
    let mut build = build();
    build.keys.dedup_header.fits_wire = false;
    assert_eq!(
        topic_option_descriptors(&build),
        Err(ResponseError::InvalidFormat)
    );
    assert_eq!(
        build_describe_options_response(Some(OptionsScope::Topic), &build),
        Err(ResponseError::InvalidFormat)
    );
}

#[test]
fn only_topics_have_options() {
    let build = build();
    let topic = build_describe_options_response(Some(OptionsScope::Topic), &build).unwrap();
    assert_eq!(topic.entries.len(), 11);
    for scope in [OptionsScope::Stream, OptionsScope::User] {
        let response = build_describe_options_response(Some(scope), &build).unwrap();
        assert!(response.entries.is_empty());
    }
    for scope in [Some(OptionsScope::Unknown), None] {
        assert_eq!(
            build_describe_options_response(scope, &build),
            Err(ResponseError::InvalidCommand)
        );
    }
}

#[test]
fn a_replica_that_ceded_the_role_does_not_advertise_itself() {
    let mut sight = ConsensusSight {
        primary: 1,
        replica: 1,
        has_ceded_primaryship: false,
    };
    assert_eq!(advertised_primary(Some(sight)), Some(1));
    sight.has_ceded_primaryship = true;
    assert_eq!(advertised_primary(Some(sight)), None);
    // Another replica is primary: having ceded says nothing about it.
    sight.primary = 0;
    assert_eq!(advertised_primary(Some(sight)), Some(0));
}

#[test]
fn a_shard_without_consensus_marks_no_leader() {
    assert_eq!(advertised_primary(None), None);
}

#[test]
fn a_body_that_does_not_decode_is_an_invalid_command() {
    for command in [
        ReadCommand::DescribeOptions(None),
        ReadCommand::GetStream(None),
        ReadCommand::GetStreams(false),
        ReadCommand::GetTopic(None),
        ReadCommand::GetTopics(None),
        ReadCommand::GetUser(None),
        ReadCommand::GetPersonalAccessTokens(false),
        ReadCommand::GetConsumerGroup(None),
        ReadCommand::GetConsumerGroups(None),
    ] {
        assert_eq!(ask(command), Err(ResponseError::InvalidCommand));
    }
}

#[test]
fn commands_that_no_builder_answers_are_never_told_they_succeeded() {
    assert_eq!(
        ask(ReadCommand::FlushUnsavedBuffer),
        Err(ResponseError::FeatureUnavailable)
    );
    assert_eq!(
        ask(ReadCommand::GetSnapshotFile),
        Err(ResponseError::InvalidCommand)
    );
    assert_eq!(
        ask(ReadCommand::Other(Some(true))),
        Err(ResponseError::FeatureUnavailable)
    );
    assert_eq!(
        ask(ReadCommand::Other(Some(false))),
        Err(ResponseError::InvalidCommand)
    );
    assert_eq!(
        ask(ReadCommand::Other(None)),
        Err(ResponseError::InvalidCommand)
    );
}

#[test]
fn a_lookup_that_resolves_to_nothing_is_empty() {
    for command in [
        ReadCommand::GetStream(Some(None)),
        ReadCommand::GetUser(Some(None)),
        ReadCommand::GetTopic(Some(TopicTarget {
            stream_id: Some(0),
            topic_id: None,
        })),
        ReadCommand::GetConsumerGroup(Some(GroupLookup {
            topic_refused: None,
            found: None,
        })),
    ] {
        assert_eq!(ask(command), Ok(NonReplicatedResponse::Empty));
    }
    // A stream that does not exist lists as one without topics.
    assert!(matches!(
        ask(ReadCommand::GetTopics(Some(None))),
        Ok(NonReplicatedResponse::Bytes(ResponseBody::Topics(response))) if response.topics.is_empty()
    ));
}

#[test]
fn each_command_is_answered_by_its_builder() {
    assert!(matches!(
        ask(ReadCommand::DescribeOptions(Some(OptionsScope::Topic))),
        Ok(NonReplicatedResponse::Bytes(ResponseBody::Options(response))) if response.entries.len() == 11
    ));
    assert_eq!(
        ask(ReadCommand::GetClusterMetadata(vec![1, 2, 3])),
        Ok(NonReplicatedResponse::Bytes(ResponseBody::Encoded(vec![1, 2, 3])))
    );
    assert!(matches!(
        ask(ReadCommand::GetStats),
        Ok(NonReplicatedResponse::Bytes(ResponseBody::Stats(response)))
            if response.clients_count == 6 && response.consumer_groups_count == 2
                && response.totals.streams_count == 1
    ));
    assert!(matches!(
        ask(ReadCommand::GetStream(Some(Some(0)))),
        Ok(NonReplicatedResponse::Bytes(ResponseBody::Stream(response))) if response.stream.name == "orders"
    ));
    assert_eq!(
        ask(ReadCommand::GetStream(Some(Some(5)))),
        Err(ResponseError::InvalidIdentifier)
    );
    assert!(matches!(
        ask(ReadCommand::GetStreams(true)),
        Ok(NonReplicatedResponse::Bytes(ResponseBody::Streams(response))) if response.streams.len() == 1
    ));
    assert!(matches!(
        ask(ReadCommand::GetUsers),
        Ok(NonReplicatedResponse::Bytes(ResponseBody::Users(response))) if response.users.len() == 1
    ));
    assert!(matches!(
        ask(ReadCommand::GetUser(Some(Some(0)))),
        Ok(NonReplicatedResponse::Bytes(ResponseBody::User(response))) if response.user.username == "root"
    ));
}

#[test]
fn access_tokens_are_scoped_to_their_caller() {
    let command = ReadCommand::GetPersonalAccessTokens(true);
    assert!(matches!(
        build_non_replicated_response(&node(), &command, Some(0), 0),
        Ok(NonReplicatedResponse::Bytes(ResponseBody::PersonalAccessTokens(response)))
            if response.tokens.len() == 1 && response.tokens[0].expiry_at == 44
    ));
    // A caller without tokens gets a list with none, not "not found".
    assert!(matches!(
        build_non_replicated_response(&node(), &command, Some(9), 0),
        Ok(NonReplicatedResponse::Bytes(ResponseBody::PersonalAccessTokens(response)))
            if response.tokens.is_empty()
    ));
    assert_eq!(
        build_non_replicated_response(&node(), &command, None, 0),
        Err(ResponseError::Unauthenticated)
    );
}

#[test]
fn consumer_groups_need_their_topic_first() {
    let refused = GroupLookup {
        topic_refused: Some(ResponseError::Refused(2_010)),
        found: Some(vec![1]),
    };
    assert_eq!(
        build_consumer_group_response(Some(&refused)),
        Err(ResponseError::Refused(2_010))
    );
    let found = GroupLookup {
        topic_refused: None,
        found: Some(vec![4, 5]),
    };
    assert_eq!(
        build_consumer_groups_response(Some(&found)),
        Ok(NonReplicatedResponse::Bytes(ResponseBody::Encoded(vec![4, 5])))
    );
    assert_eq!(
        build_consumer_groups_response(None),
        Err(ResponseError::InvalidCommand)
    );
}
