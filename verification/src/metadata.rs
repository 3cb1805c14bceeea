//! Committed metadata as the read path sees it.
//!
//! Plain values: what the responses are built from, free of how the metadata
//! state machine stores it. Names and option sets come with the verdict of the
//! wire codec on them, since a stored value may be one that cannot be sent.

use std::collections::HashMap;

use vstd::prelude::*;

verus! {

broadcast use vstd::std_specs::hash::group_hash_axioms;

/// A stored name, and whether the wire can carry it.
#[derive(Debug)]
pub struct Name {
    pub text: String,
    pub fits_wire: bool,
}

/// An option set as the options codec encoded it, or the code of the error it
/// refused it with.
#[derive(Debug)]
pub enum EncodedOptions {
    Encoded(Vec<u8>),
    Refused(u32),
}

/// A topic's option set, encoded as the part that was asked for and the part
/// that was derived, or the code of the error it was refused with.
#[derive(Debug)]
pub enum EncodedTopicOptions {
    Encoded { options: Vec<u8>, derived_options: Vec<u8> },
    Refused(u32),
}

/// When the messages of a topic expire.
#[derive(Debug, Clone, Copy, PartialEq, Eq, Structural)]
pub enum MessageExpiry {
    ServerDefault,
    /// After this many microseconds.
    ExpireDuration(u64),
    NeverExpire,
}

/// How large a topic may grow.
#[derive(Debug, Clone, Copy, PartialEq, Eq, Structural)]
pub enum MaxTopicSize {
    ServerDefault,
    /// To this many bytes.
    Custom(u64),
    Unlimited,
}

impl MessageExpiry {
    /// The expiry as the wire carries it: 0 for the server default, the
    /// largest value for never.
    pub open spec fn on_wire(self) -> u64 {
        match self {
            MessageExpiry::ServerDefault => 0,
            MessageExpiry::ExpireDuration(micros) => micros,
            MessageExpiry::NeverExpire => u64::MAX,
        }
    }

    /// The expiry as the wire carries it.
    pub fn to_wire(self) -> (value: u64)
        ensures
            value == self.on_wire(),
            self is ServerDefault ==> value == 0,
            self matches MessageExpiry::ExpireDuration(micros) ==> value == micros,
            self is NeverExpire ==> value == 0xffff_ffff_ffff_ffff,
    {
        match self {
            MessageExpiry::ServerDefault => 0,
            MessageExpiry::ExpireDuration(micros) => micros,
            MessageExpiry::NeverExpire => u64::MAX,
        }
    }
}

impl MaxTopicSize {
    /// The size as the wire carries it: 0 for the server default, the largest
    /// value for unlimited.
    pub open spec fn on_wire(self) -> u64 {
        match self {
            MaxTopicSize::ServerDefault => 0,
            MaxTopicSize::Custom(bytes) => bytes,
            MaxTopicSize::Unlimited => u64::MAX,
        }
    }

    /// The size as the wire carries it.
    pub fn to_wire(self) -> (value: u64)
        ensures
            value == self.on_wire(),
            self is ServerDefault ==> value == 0,
            self matches MaxTopicSize::Custom(bytes) ==> value == bytes,
            self is Unlimited ==> value == 0xffff_ffff_ffff_ffff,
    {
        match self {
            MaxTopicSize::ServerDefault => 0,
            MaxTopicSize::Custom(bytes) => bytes,
            MaxTopicSize::Unlimited => u64::MAX,
        }
    }
}

/// The values of the occupied slots, in slot order.
pub open spec fn occupied<T>(slots: Seq<Option<T>>) -> Seq<T>
    decreases slots.len(),
{
    if slots.len() == 0 {
        Seq::empty()
    } else {
        match slots.last() {
            Some(value) => occupied(slots.drop_last()).push(value),
            None => occupied(slots.drop_last()),
        }
    }
}

/// Values by slot. A slot may be empty, and keeps its number.
#[derive(Debug)]
pub struct Slots<T> {
    pub slots: Vec<Option<T>>,
}

impl<T> Slots<T> {
    /// The values held, in slot order.
    pub open spec fn values(self) -> Seq<T> {
        occupied(self.slots@)
    }

    /// The value in slot `id`.
    pub open spec fn at(self, id: int) -> Option<T> {
        if 0 <= id < self.slots@.len() {
            self.slots@[id]
        } else {
            None
        }
    }

    /// How many values are held.
    pub fn len(&self) -> (count: usize)
        ensures
            count == self.values().len(),
    {
        let mut count: usize = 0;
        let mut i: usize = 0;
        while i < self.slots.len()
            invariant
                i <= self.slots@.len(),
                count <= i,
                count == occupied(self.slots@.take(i as int)).len(),
            decreases self.slots@.len() - i,
        {
            assert(self.slots@.take(i + 1).drop_last() =~= self.slots@.take(i as int));
            if self.slots[i].is_some() {
                count += 1;
            }
            i += 1;
        }
        assert(self.slots@.take(i as int) =~= self.slots@);
        count
    }

    /// The value in slot `id`.
    pub fn get(&self, id: usize) -> (value: Option<&T>)
        ensures
            value is Some <==> self.at(id as int) is Some,
            value matches Some(found) ==> self.at(id as int) == Some(*found),
            value is Some <==> id < self.slots@.len() && self.slots@[id as int] is Some,
            value matches Some(found) ==> self.slots@[id as int] == Some(*found),
    {
        if id < self.slots.len() {
            self.slots[id].as_ref()
        } else {
            None
        }
    }
}

/// Counters of a stream or a topic.
#[derive(Debug, Clone, Copy, PartialEq, Eq, Structural)]
pub struct Volume {
    pub size_bytes: u64,
    pub messages_count: u64,
}

/// Counters of a partition.
#[derive(Debug, Clone, Copy, PartialEq, Eq, Structural)]
pub struct PartitionStats {
    pub segments_count: u32,
    pub current_offset: u64,
    pub size_bytes: u64,
    pub messages_count: u64,
}

/// Counters of the partitions whose storage is being built or stands.
#[derive(Debug)]
pub struct StatsRegistry {
    by_stream: HashMap<usize, HashMap<usize, HashMap<usize, PartitionStats>>>,
}

impl StatsRegistry {
    /// The counters registered for a partition.
    pub closed spec fn at(&self, stream_id: usize, topic_id: usize, partition_id: usize) -> Option<
        PartitionStats,
    > {
        let streams = self.by_stream@;
        if streams.contains_key(stream_id) && streams[stream_id]@.contains_key(topic_id)
            && streams[stream_id]@[topic_id]@.contains_key(partition_id) {
            Some(streams[stream_id]@[topic_id]@[partition_id])
        } else {
            None
        }
    }

    /// A registry with no partition.
    pub fn new() -> (registry: Self)
        ensures
            forall|stream_id: usize, topic_id: usize, partition_id: usize|
                registry.at(stream_id, topic_id, partition_id) is None,
    {
        StatsRegistry { by_stream: HashMap::new() }
    }

    /// The counters registered for a partition.
    pub fn partition_get(&self, stream_id: usize, topic_id: usize, partition_id: usize) -> (stats:
        Option<PartitionStats>)
        ensures
            stats == self.at(stream_id, topic_id, partition_id),
    {
        match self.by_stream.get(&stream_id) {
            Some(topics) => match topics.get(&topic_id) {
                Some(partitions) => match partitions.get(&partition_id) {
                    Some(stats) => Some(*stats),
                    None => None,
                },
                None => None,
            },
            None => None,
        }
    }

    /// Register `stats` as the counters of a partition.
    pub fn register(
        &mut self,
        stream_id: usize,
        topic_id: usize,
        partition_id: usize,
        stats: PartitionStats,
    )
        ensures
            forall|s: usize, t: usize, p: usize| #[trigger]
                final(self).at(s, t, p) == if s == stream_id && t == topic_id && p == partition_id {
                    Some(stats)
                } else {
                    old(self).at(s, t, p)
                },
    {
        let mut topics: HashMap<usize, HashMap<usize, PartitionStats>> = match self.by_stream.remove(
            &stream_id,
        ) {
            Some(topics) => topics,
            None => HashMap::new(),
        };
        let mut partitions: HashMap<usize, PartitionStats> = match topics.remove(&topic_id) {
            Some(partitions) => partitions,
            None => HashMap::new(),
        };
        partitions.insert(partition_id, stats);
        topics.insert(topic_id, partitions);
        self.by_stream.insert(stream_id, topics);
    }
}

/// A committed partition.
#[derive(Debug, Clone, Copy, PartialEq, Eq, Structural)]
pub struct Partition {
    pub id: usize,
    /// When it was created, in microseconds.
    pub created_at: u64,
}

/// A committed topic.
#[derive(Debug)]
pub struct Topic {
    pub id: usize,
    pub name: Name,
    /// When it was created, in microseconds.
    pub created_at: u64,
    pub message_expiry: MessageExpiry,
    /// The code of the compression algorithm.
    pub compression_algorithm: u8,
    pub max_topic_size: MaxTopicSize,
    pub options: EncodedTopicOptions,
    pub stats: Volume,
    pub partitions: Vec<Partition>,
}

/// A committed stream.
#[derive(Debug)]
pub struct Stream {
    pub id: usize,
    pub name: Name,
    /// When it was created, in microseconds.
    pub created_at: u64,
    pub options: EncodedOptions,
    pub stats: Volume,
    pub topics: Slots<Topic>,
}

/// The committed streams, with the counters of their partitions.
#[derive(Debug)]
pub struct Streams {
    pub items: Slots<Stream>,
    pub stats_registry: StatsRegistry,
}

/// A committed user.
#[derive(Debug)]
pub struct User {
    pub id: u32,
    /// When they were created, in microseconds.
    pub created_at: u64,
    /// The code of their status.
    pub status: u8,
    pub username: Name,
    pub options: EncodedOptions,
    /// Their permissions as the wire carries them.
    pub permissions: Option<Vec<u8>>,
}

/// A personal access token: its name, and when it expires, in microseconds.
#[derive(Debug)]
pub struct PersonalAccessToken {
    pub name: Name,
    pub expiry_at: Option<u64>,
}

/// The committed users, with their access tokens by user.
#[derive(Debug)]
pub struct Users {
    pub items: Slots<User>,
    pub personal_access_tokens: HashMap<u32, Vec<PersonalAccessToken>>,
}

/// A consumer group that a client is a member of.
#[derive(Debug, Clone, Copy, PartialEq, Eq, Structural)]
pub struct GroupMembership {
    pub stream_id: u32,
    pub topic_id: u32,
    pub group_id: u32,
}

/// Consumer-group memberships by client.
#[derive(Debug)]
pub struct Memberships {
    pub by_client: HashMap<u128, Vec<GroupMembership>>,
}

impl Memberships {
    /// The groups that `client` is a member of.
    pub open spec fn groups_of(self, client: u128) -> Seq<GroupMembership> {
        if self.by_client@.contains_key(client) {
            self.by_client@[client]@
        } else {
            Seq::empty()
        }
    }

    /// The groups that `client` is a member of.
    pub fn of(&self, client: u128) -> (groups: Vec<GroupMembership>)
        ensures
            groups@ == self.groups_of(client),
            self.by_client@.contains_key(client) ==> groups@ == self.by_client@[client]@,
            !self.by_client@.contains_key(client) ==> groups@.len() == 0,
    {
        match self.by_client.get(&client) {
            Some(groups) => {
                let copied = groups.clone();
                assert(copied@ =~= groups@);
                copied
            },
            None => Vec::new(),
        }
    }
}

} // verus!
