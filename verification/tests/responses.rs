use std::collections::HashMap;

use message_dedup::accounts::{
    build_get_me_response, build_get_personal_access_tokens_response, build_get_user_response,
    build_get_users_response, connected_client_to_response, personal_access_tokens_response,
    user_response, ConnectedClient,
};
use message_dedup::error::{usize_to_u32, ResponseError};
use message_dedup::metadata::{
    EncodedOptions, EncodedTopicOptions, GroupMembership, MaxTopicSize, Memberships,
    MessageExpiry, Name, Partition, PartitionStats, PersonalAccessToken, Slots, StatsRegistry,
    Stream, Streams, Topic, User, Users, Volume,
};
use message_dedup::responses::{
    build_get_stream_response, build_get_streams_response, build_get_topic_response,
    build_get_topics_response, partition_response, partition_segments_count, stream_response,
    topic_header,
};
use message_dedup::stats::{
    aggregate_stats_totals, build_stats_response, ServerVersion, StatsTotals, SystemStats,
};

fn name(text: &str) -> Name {
    Name {
        text: text.to_string(),
        fits_wire: true,
    }
}

fn bad_name(text: &str) -> Name {
    Name {
        text: text.to_string(),
        fits_wire: false,
    }
}

fn token(name: Name, expiry_at: Option<u64>) -> PersonalAccessToken {
    PersonalAccessToken { name, expiry_at }
}

fn volume(size_bytes: u64, messages_count: u64) -> Volume {
    Volume {
        size_bytes,
        messages_count,
    }
}

fn partition(id: usize) -> Partition {
    Partition { id, created_at: 1 }
}

fn topic(id: usize, partitions: Vec<Partition>) -> Topic {
    Topic {
        id,
        name: name("topic"),
        created_at: 1,
        message_expiry: MessageExpiry::NeverExpire,
        compression_algorithm: 1,
        max_topic_size: MaxTopicSize::Unlimited,
        options: EncodedTopicOptions::Encoded {
            options: vec![1, 2],
            derived_options: vec![3],
        },
        stats: volume(0, 0),
        partitions,
    }
}

fn stream(id: usize, topics: Vec<Option<Topic>>) -> Stream {
    Stream {
        id,
        name: name("stream"),
        created_at: 1,
        options: EncodedOptions::Encoded(vec![9]),
        stats: volume(0, 0),
        topics: Slots { slots: topics },
    }
}

fn streams(items: Vec<Option<Stream>>) -> Streams {
    Streams {
        items: Slots { slots: items },
        stats_registry: StatsRegistry::new(),
    }
}

fn counters(segments_count: u32, messages_count: u64, size_bytes: u64) -> PartitionStats {
    PartitionStats {
        segments_count,
        current_offset: messages_count,
        size_bytes,
        messages_count,
    }
}

#[test]
fn personal_access_tokens_response_preserves_order_and_encodes_never_as_zero() {
    let tokens = vec![token(name("alpha"), Some(123_456)), token(name("zeta"), None)];

    let response = personal_access_tokens_response(&tokens).expect("mapping succeeds");

    assert_eq!(response.tokens.len(), 2);
    assert_eq!(response.tokens[0].name.as_str(), "alpha");
    assert_eq!(response.tokens[0].expiry_at, 123_456);
    assert_eq!(response.tokens[1].name.as_str(), "zeta");
    assert_eq!(response.tokens[1].expiry_at, 0);
}

#[test]
fn personal_access_tokens_response_encodes_empty_list_as_empty_body() {
    let response = personal_access_tokens_response(&Vec::new()).expect("mapping succeeds");
    // No token at all: there is nothing to encode.
    assert!(response.tokens.is_empty());
}

#[test]
fn partition_response_reports_the_initial_shape_until_a_segment_exists() {
    let mut streams = streams(Vec::new());
    let partition = partition(0);

    // Registry miss: the owning shard has not started building.
    let predicted = partition_response(&streams, 0, 0, &partition).expect("response builds");
    assert_eq!(predicted.segments_count, 1);
    assert_eq!(predicted.messages_count, 0);

    // Registered but not yet segmented: the entry is minted before the first
    // segment stands, so this is the SAME state to a caller and must not read
    // as "no storage".
    streams.stats_registry.register(0, 0, 0, counters(0, 0, 0));
    let mid_build = partition_response(&streams, 0, 0, &partition).expect("response builds");
    assert_eq!(mid_build.segments_count, 1);

    // Materialized: the real counters answer from here on.
    streams.stats_registry.register(0, 0, 0, counters(1, 7, 64));
    let live = partition_response(&streams, 0, 0, &partition).expect("response builds");
    assert_eq!(live.segments_count, 1);
    assert_eq!(live.messages_count, 7);
    assert_eq!(live.size_bytes, 64);
}

#[test]
fn stats_totals_count_every_committed_partition_before_it_materialises() {
    let mut streams = streams(vec![Some(stream(
        0,
        vec![Some(topic(0, vec![partition(0), partition(1)]))],
    ))]);

    // Only partition 0 has materialised. Counting the stream's rolled-up
    // counter reported 1 here, so a caller polling `[stats]` twice saw the
    // total climb to 2 with no write in between (and `get_topic` already
    // reported 2 for the same partitions).
    streams.stats_registry.register(0, 0, 0, counters(1, 0, 0));

    let totals = aggregate_stats_totals(&streams).expect("totals aggregate");
    assert_eq!(totals.partitions_count, 2);
    assert_eq!(
        totals.segments_count, 2,
        "an unmaterialised partition must contribute the same floor the detail response reports"
    );

    // Materialising the second partition changes nothing: the total was
    // already the steady-state answer.
    streams.stats_registry.register(0, 0, 1, counters(1, 0, 0));
    let after = aggregate_stats_totals(&streams).expect("totals aggregate");
    assert_eq!(after.segments_count, 2);
    assert_eq!(after, totals);
}

#[test]
fn topic_header_echoes_stored_size_and_expiry_verbatim() {
    let topic_with = |max_topic_size, message_expiry| Topic {
        message_expiry,
        max_topic_size,
        ..topic(0, Vec::new())
    };

    // Stored `ServerDefault` sentinels echo the wire sentinel (0)
    // verbatim, so an update to `ServerDefault` reads back as
    // `ServerDefault` instead of the node default frozen at read time.
    let sentinel = topic_header(&topic_with(
        MaxTopicSize::ServerDefault,
        MessageExpiry::ServerDefault,
    ))
    .expect("topic header builds");
    assert_eq!(sentinel.max_topic_size, 0);
    assert_eq!(sentinel.message_expiry, 0);

    // Explicit values round-trip unchanged.
    let custom = topic_header(&topic_with(
        MaxTopicSize::Custom(1024),
        MessageExpiry::ExpireDuration(5_000_000),
    ))
    .expect("topic header builds");
    assert_eq!(custom.max_topic_size, 1024);
    assert_eq!(custom.message_expiry, 5_000_000);
    let unlimited = topic_header(&topic_with(
        MaxTopicSize::Unlimited,
        MessageExpiry::NeverExpire,
    ))
    .expect("topic header builds");
    assert_eq!(unlimited.max_topic_size, u64::MAX);
    assert_eq!(unlimited.message_expiry, u64::MAX);
}

#[test]
fn a_token_name_the_wire_cannot_carry_is_refused_or_left_out() {
    let tokens = vec![
        token(name("a"), None),
        token(bad_name(""), Some(5)),
        token(name("c"), Some(7)),
    ];
    assert_eq!(
        personal_access_tokens_response(&tokens),
        Err(ResponseError::InvalidFormat)
    );
    let users = Users {
        items: Slots { slots: Vec::new() },
        personal_access_tokens: HashMap::from([(3, tokens)]),
    };
    let listed = build_get_personal_access_tokens_response(&users, Some(3));
    let shown: Vec<(&str, u64)> = listed
        .tokens
        .iter()
        .map(|token| (token.name.as_str(), token.expiry_at))
        .collect();
    assert_eq!(shown, vec![("a", 0), ("c", 7)]);
    assert!(build_get_personal_access_tokens_response(&users, Some(4))
        .tokens
        .is_empty());
    assert!(build_get_personal_access_tokens_response(&users, None)
        .tokens
        .is_empty());
}

#[test]
fn a_count_that_does_not_fit_the_wire_is_refused() {
    assert_eq!(usize_to_u32(7), Ok(7));
    assert_eq!(usize_to_u32(u32::MAX as usize), Ok(u32::MAX));
    assert_eq!(
        usize_to_u32(u32::MAX as usize + 1),
        Err(ResponseError::CountOutOfRange)
    );
    let far = Partition {
        id: u32::MAX as usize + 1,
        created_at: 0,
    };
    assert_eq!(
        partition_response(&streams(Vec::new()), 0, 0, &far),
        Err(ResponseError::CountOutOfRange)
    );
}

#[test]
fn a_stream_shows_its_occupied_topics() {
    let mut shown = stream(4, vec![None, Some(topic(1, Vec::new())), None, Some(topic(3, vec![partition(0)]))]);
    shown.stats = volume(100, 10);
    let response = stream_response(&shown).unwrap();
    assert_eq!((response.id, response.topics_count), (4, 2));
    assert_eq!((response.size_bytes, response.messages_count), (100, 10));
    assert_eq!((response.name.as_str(), response.created_at), ("stream", 1));
    assert_eq!(response.options, vec![9]);

    let all = streams(vec![None, Some(shown)]);
    let found = build_get_stream_response(&all, Some(1)).unwrap().unwrap();
    assert_eq!(found.stream, response);
    let ids: Vec<u32> = found.topics.iter().map(|topic| topic.id).collect();
    assert_eq!(ids, vec![1, 3]);
    assert_eq!(found.topics[1].partitions_count, 1);
    assert_eq!(found.topics[0].options, vec![1, 2]);
    assert_eq!(found.topics[0].derived_options, vec![3]);

    assert_eq!(build_get_stream_response(&all, None), Ok(None));
    assert_eq!(
        build_get_stream_response(&all, Some(0)),
        Err(ResponseError::InvalidIdentifier)
    );
    assert_eq!(
        build_get_stream_response(&all, Some(9)),
        Err(ResponseError::InvalidIdentifier)
    );
    assert_eq!(build_get_streams_response(&all).unwrap().streams, vec![response]);
}

#[test]
fn the_first_error_of_a_stream_decides() {
    let mut wrong = stream(0, Vec::new());
    wrong.name = bad_name("");
    wrong.options = EncodedOptions::Refused(17);
    assert_eq!(stream_response(&wrong), Err(ResponseError::InvalidFormat));
    wrong.name = name("fine");
    assert_eq!(stream_response(&wrong), Err(ResponseError::Refused(17)));
    wrong.id = u32::MAX as usize + 1;
    assert_eq!(stream_response(&wrong), Err(ResponseError::CountOutOfRange));

    // A topic's options are encoded before anything else is looked at.
    let mut topic = topic(0, Vec::new());
    topic.name = bad_name("");
    assert_eq!(topic_header(&topic), Err(ResponseError::InvalidFormat));
    topic.options = EncodedTopicOptions::Refused(21);
    assert_eq!(topic_header(&topic), Err(ResponseError::Refused(21)));

    let all = streams(vec![Some(stream(0, vec![Some(topic)]))]);
    assert_eq!(
        build_get_stream_response(&all, Some(0)),
        Err(ResponseError::Refused(21))
    );
    assert_eq!(
        build_get_topics_response(&all, Some(0)),
        Err(ResponseError::Refused(21))
    );
    assert!(build_get_streams_response(&all).is_ok());
}

#[test]
fn a_topic_shows_its_partitions_under_the_slots_it_was_found_in() {
    let mut all = streams(vec![Some(stream(
        0,
        vec![Some(topic(0, vec![partition(0), partition(1)]))],
    ))]);
    all.stats_registry.register(0, 0, 1, counters(3, 20, 2_000));
    let found = build_get_topic_response(&all, Some(0), Some(0)).unwrap().unwrap();
    assert_eq!(found.topic.partitions_count, 2);
    let shown: Vec<(u32, u32, u64)> = found
        .partitions
        .iter()
        .map(|partition| (partition.id, partition.segments_count, partition.current_offset))
        .collect();
    assert_eq!(shown, vec![(0, 1, 0), (1, 3, 20)]);
    assert_eq!(partition_segments_count(&all, 0, 0, 1), 3);

    // What the details report adds up to the total.
    let totals = aggregate_stats_totals(&all).unwrap();
    assert_eq!(totals.segments_count, shown.iter().map(|(_, segments, _)| segments).sum());

    assert_eq!(build_get_topic_response(&all, None, Some(0)), Ok(None));
    assert_eq!(build_get_topic_response(&all, Some(0), None), Ok(None));
    assert_eq!(
        build_get_topic_response(&all, Some(1), Some(0)),
        Err(ResponseError::InvalidIdentifier)
    );
    assert_eq!(
        build_get_topic_response(&all, Some(0), Some(1)),
        Err(ResponseError::InvalidIdentifier)
    );
    assert!(build_get_topics_response(&all, None).unwrap().topics.is_empty());
    assert_eq!(
        build_get_topics_response(&all, Some(1)),
        Err(ResponseError::InvalidIdentifier)
    );
}

fn user(id: u32, username: Name) -> User {
    User {
        id,
        created_at: 11,
        status: 1,
        username,
        options: EncodedOptions::Encoded(vec![5]),
        permissions: None,
    }
}

#[test]
fn users_are_shown_with_their_permissions() {
    let mut admin = user(0, name("admin"));
    admin.permissions = Some(vec![1, 1, 1]);
    let users = Users {
        items: Slots {
            slots: vec![Some(admin), None, Some(user(2, name("guest")))],
        },
        personal_access_tokens: HashMap::new(),
    };
    let details = build_get_user_response(&users, Some(0)).unwrap().unwrap();
    assert_eq!(details.permissions, Some(vec![1, 1, 1]));
    assert_eq!((details.user.id, details.user.status), (0, 1));
    assert_eq!(details.user.username, "admin");
    assert_eq!((details.user.created_at, details.user.options), (11, vec![5]));
    let guest = build_get_user_response(&users, Some(2)).unwrap().unwrap();
    assert_eq!(guest.permissions, None);
    assert_eq!(build_get_user_response(&users, None), Ok(None));
    assert_eq!(
        build_get_user_response(&users, Some(1)),
        Err(ResponseError::InvalidIdentifier)
    );
    let ids: Vec<u32> = build_get_users_response(&users)
        .unwrap()
        .users
        .iter()
        .map(|user| user.id)
        .collect();
    assert_eq!(ids, vec![0, 2]);
    assert_eq!(
        user_response(&user(1, bad_name(""))),
        Err(ResponseError::InvalidFormat)
    );
    let mut refused = user(1, name("x"));
    refused.options = EncodedOptions::Refused(8);
    assert_eq!(user_response(&refused), Err(ResponseError::Refused(8)));
}

#[test]
fn a_client_is_known_by_the_tail_of_its_id_and_the_groups_it_is_bound_to() {
    let group = GroupMembership {
        stream_id: 1,
        topic_id: 2,
        group_id: 3,
    };
    let memberships = Memberships {
        by_client: HashMap::from([(77, vec![group, group])]),
    };
    let info = ConnectedClient {
        client_id: (3u128 << 112) | (1 << 32) | 9,
        user_id: Some(5),
        transport: 2,
        address: "127.0.0.1:9000".to_string(),
        vsr_client_id: Some(77),
    };
    let response = connected_client_to_response(&memberships, &info);
    assert_eq!((response.client_id, response.user_id), (9, 5));
    assert_eq!((response.transport, response.consumer_groups_count), (2, 2));
    assert_eq!(response.address, "127.0.0.1:9000");

    let me = build_get_me_response(&memberships, Some(&info), info.client_id, Some(77));
    assert_eq!(me.client, response);
    assert_eq!(me.consumer_groups, vec![group, group]);

    // A record that is bound while the session is not: the groups listed are
    // the ones counted.
    let unbound = build_get_me_response(&memberships, Some(&info), info.client_id, None);
    assert_eq!(unbound.client.consumer_groups_count, 0);
    assert!(unbound.consumer_groups.is_empty());

    let anonymous = ConnectedClient {
        user_id: None,
        vsr_client_id: None,
        ..info
    };
    let shown = connected_client_to_response(&memberships, &anonymous);
    assert_eq!((shown.user_id, shown.consumer_groups_count), (u32::MAX, 0));

    let stranger = build_get_me_response(&memberships, None, (1u128 << 112) | 42, Some(77));
    assert_eq!((stranger.client.client_id, stranger.client.user_id), (42, u32::MAX));
    assert_eq!((stranger.client.transport, stranger.client.address.as_str()), (1, ""));
    assert_eq!(stranger.client.consumer_groups_count, 2);
}

fn system() -> SystemStats {
    SystemStats {
        process_id: 1,
        cpu_usage_bits: 1.5f32.to_bits(),
        total_cpu_usage_bits: 2.5f32.to_bits(),
        memory_usage: 2,
        total_memory: 3,
        available_memory: 4,
        run_time: 5,
        start_time: 6,
        read_bytes: 7,
        written_bytes: 8,
        hostname: "host".to_string(),
        os_name: "os".to_string(),
        os_version: "1".to_string(),
        kernel_version: "2".to_string(),
        threads_count: 9,
        free_disk_space: 10,
        total_disk_space: 11,
    }
}

#[test]
fn statistics_join_the_totals_with_what_the_system_reported() {
    let mut first = stream(0, vec![Some(topic(0, vec![partition(0)])), None]);
    first.stats = volume(100, 5);
    let mut second = stream(2, vec![Some(topic(0, Vec::new()))]);
    second.stats = volume(u64::MAX, 6);
    let all = streams(vec![Some(first), None, Some(second)]);
    let version = ServerVersion {
        text: "0.9.0".to_string(),
        number: Some(900),
    };
    let response = build_stats_response(&all, 4, 12, &system(), &version).unwrap();
    assert_eq!(
        response.totals,
        StatsTotals {
            streams_count: 2,
            topics_count: 2,
            partitions_count: 1,
            segments_count: 1,
            messages_size_bytes: u64::MAX,
            messages_count: 11,
        }
    );
    assert_eq!((response.clients_count, response.consumer_groups_count), (12, 4));
    assert_eq!((response.process_id, response.threads_count), (1, 9));
    assert_eq!(f32::from_bits(response.cpu_usage_bits), 1.5);
    assert_eq!(f32::from_bits(response.total_cpu_usage_bits), 2.5);
    assert_eq!((response.memory_usage, response.total_memory), (2, 3));
    assert_eq!((response.available_memory, response.run_time), (4, 5));
    assert_eq!((response.start_time, response.read_bytes), (6, 7));
    assert_eq!((response.written_bytes, response.free_disk_space), (8, 10));
    assert_eq!((response.hostname.as_str(), response.os_name.as_str()), ("host", "os"));
    assert_eq!(
        (response.os_version.as_str(), response.kernel_version.as_str()),
        ("1", "2")
    );
    assert_eq!((response.server_version.as_str(), response.server_semver), ("0.9.0", Some(900)));
    assert_eq!(response.total_disk_space, 11);
    assert_eq!(
        build_stats_response(&all, u32::MAX as usize + 1, 0, &system(), &version),
        Err(ResponseError::CountOutOfRange)
    );
}

#[test]
fn segment_totals_saturate() {
    let mut all = streams(vec![Some(stream(
        0,
        vec![Some(topic(0, vec![partition(0), partition(1)]))],
    ))]);
    all.stats_registry.register(0, 0, 0, counters(u32::MAX, 0, 0));
    assert_eq!(aggregate_stats_totals(&all).unwrap().segments_count, u32::MAX);
}
