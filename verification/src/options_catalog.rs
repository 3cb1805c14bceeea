//! The catalog of options a topic can be created with.
//!
//! The keys, the codes of the value kinds, the defaults and the bounds are
//! constants of the build; the catalog puts them in order and words the bounds
//! each value is checked against, since it is the only place an operator
//! learns them.

use vstd::prelude::*;
use vstd::string::*;

use crate::decimal;
use crate::decimal::push_decimal;
use crate::error::ResponseError;
use crate::metadata::Name;
use crate::policy::{MAX_DEDUP_HEADER_LENGTH, MAX_DEDUP_WINDOW_MICROS};
use crate::wire;
use crate::wire::push_le;

verus! {

pub const COMPRESSION_TEXT: &'static str = "Compression algorithm (none, gzip); stored and reported, not applied to messages";

pub const EXPIRY_TEXT: &'static str = "Message expiry in microseconds, or a humantime string (e.g. 7 days)";

pub const MAX_SIZE_TEXT: &'static str = "Topic-wide sealed-segment size cap, split across all partitions, in bytes or a byte-size string (e.g. 1 GiB); finite values must be at least the segment size";

pub const DURABILITY_TEXT: &'static str = "Message completion: replicated or persisted. Independently defaults to replicated. A singleton quorum has one copy. In replicated groups, persisted messages use WAL references to segment bodies, retaining their inodes by hard link until WAL reclamation. The full body size still counts against partition.wal_bytes_max.";

pub const OFFSET_DURABILITY_TEXT: &'static str = "Explicit offset completion: replicated or persisted. Independently defaults to replicated. Poll auto-commit remains asynchronous. In replicated groups, persisted offsets also enable WAL references to segment bodies, retaining their inodes by hard link until reclamation, even with replicated message durability. Full body sizes count against partition.wal_bytes_max.";

pub const SEGMENT_TEXT: &'static str = "Segment size in bytes, or a byte-size string (e.g. 128 MiB); a 512-byte multiple within ";

pub const RANGE_TEXT: &'static str = "..=";

pub const MESSAGES_TO_SAVE_TEXT: &'static str = "Ordinary message-count flush trigger; 1..=";

pub const MESSAGES_TO_SAVE_END: &'static str = ". Required persistence, capacity pressure, and lifecycle operations can flush earlier";

pub const SIZE_TO_SAVE_TEXT: &'static str = "Flush the journal once it holds this many bytes, or a byte-size string; whichever threshold trips first flushes. At most ";

pub const PREALLOCATE_TEXT: &'static str = "Request segment_size bytes of disk reservation when each segment opens. Unsupported or failed reservations fall back to ordinary allocation with a warning. Reservation runs inline on the owning shard. segment_size * partitions_count is capped at ";

pub const PREALLOCATE_END: &'static str = " bytes per create";

pub const WINDOW_TEXT: &'static str = "Drop a message whose dedup_header value was already appended to the same partition within this window: micros or a humantime string (5m). 0 disables deduplication. At most ";

pub const WINDOW_END: &'static str = " micros. Requires dedup_header";

pub const HEADER_TEXT: &'static str = "User-header key whose value identifies a message for dedup_window, matched byte for byte, 1..=";

pub const HEADER_END: &'static str = " bytes. Messages without it are never deduplicated";

/// The default of an option that names no algorithm.
pub const NONE: &'static str = "none";

/// The default of a durability option.
pub const REPLICATED: &'static str = "replicated";

/// The keys of the options.
#[derive(Debug)]
pub struct TopicOptionKeys {
    pub compression_algorithm: Name,
    pub message_expiry: Name,
    pub max_topic_size: Name,
    pub segment_size: Name,
    pub durability: Name,
    pub consumer_offset_durability: Name,
    pub messages_required_to_save: Name,
    pub size_of_messages_required_to_save: Name,
    pub preallocate_segments: Name,
    pub dedup_window: Name,
    pub dedup_header: Name,
}

impl TopicOptionKeys {
    /// Whether the wire can carry every key.
    pub open spec fn fit_wire(self) -> bool {
        &&& self.compression_algorithm.fits_wire
        &&& self.message_expiry.fits_wire
        &&& self.max_topic_size.fits_wire
        &&& self.segment_size.fits_wire
        &&& self.durability.fits_wire
        &&& self.consumer_offset_durability.fits_wire
        &&& self.messages_required_to_save.fits_wire
        &&& self.size_of_messages_required_to_save.fits_wire
        &&& self.preallocate_segments.fits_wire
        &&& self.dedup_window.fits_wire
        &&& self.dedup_header.fits_wire
    }
}

/// The codes of the value kinds the options use.
#[derive(Debug, Clone, Copy, PartialEq, Eq, Structural)]
pub struct ValueKinds {
    pub string: u8,
    pub boolean: u8,
    pub uint32: u8,
    pub uint64: u8,
}

/// The defaults of the options that have a number or a flag for one.
#[derive(Debug, Clone, Copy, PartialEq, Eq, Structural)]
pub struct TopicOptionDefaults {
    pub message_expiry: u64,
    pub max_topic_size: u64,
    pub segment_size: u64,
    pub messages_required_to_save: u32,
    pub size_of_messages_required_to_save: u64,
    pub preallocate_segments: bool,
}

/// The bounds the values are checked against.
#[derive(Debug, Clone, Copy, PartialEq, Eq, Structural)]
pub struct TopicOptionBounds {
    pub min_segment_size: u64,
    pub max_segment_size: u64,
    pub max_messages_required_to_save: u32,
    pub max_size_of_messages_required_to_save: u64,
    pub max_preallocated_topic_bytes: u64,
}

/// The constants of the build that the catalog is made of.
#[derive(Debug)]
pub struct TopicOptionBuild {
    pub keys: TopicOptionKeys,
    pub kinds: ValueKinds,
    pub defaults: TopicOptionDefaults,
    pub bounds: TopicOptionBounds,
}

/// One option: its key, the kind of its value, its default as it is encoded,
/// and what it means.
#[derive(Debug, PartialEq, Eq)]
pub struct OptionDescriptor {
    pub key: String,
    pub kind: u8,
    pub default_value: Vec<u8>,
    pub description: String,
}

/// An [`OptionDescriptor`] in mathematical terms.
#[verifier::ext_equal]
pub struct DescriptorView {
    pub key: Seq<char>,
    pub kind: u8,
    pub default_value: Seq<u8>,
    pub description: Seq<char>,
}

impl View for OptionDescriptor {
    type V = DescriptorView;

    open spec fn view(&self) -> DescriptorView {
        DescriptorView {
            key: self.key@,
            kind: self.kind,
            default_value: self.default_value@,
            description: self.description@,
        }
    }
}

/// A number in the middle of a text.
pub open spec fn around(before: Seq<char>, value: nat, after: Seq<char>) -> Seq<char> {
    before + decimal::decimal(value) + after
}

/// Descriptors in mathematical terms.
pub open spec fn descriptor_views(entries: Seq<OptionDescriptor>) -> Seq<DescriptorView> {
    entries.map_values(|entry: OptionDescriptor| entry@)
}

/// The catalog: every option in order.
pub open spec fn topic_options(build: TopicOptionBuild) -> Seq<DescriptorView> {
    seq![
        DescriptorView {
            key: build.keys.compression_algorithm.text@,
            kind: build.kinds.string,
            default_value: NONE.spec_bytes(),
            description: COMPRESSION_TEXT@,
        },
        DescriptorView {
            key: build.keys.message_expiry.text@,
            kind: build.kinds.uint64,
            default_value: wire::le_bytes(build.defaults.message_expiry as nat, 8),
            description: EXPIRY_TEXT@,
        },
        DescriptorView {
            key: build.keys.max_topic_size.text@,
            kind: build.kinds.uint64,
            default_value: wire::le_bytes(build.defaults.max_topic_size as nat, 8),
            description: MAX_SIZE_TEXT@,
        },
        DescriptorView {
            key: build.keys.segment_size.text@,
            kind: build.kinds.uint64,
            default_value: wire::le_bytes(build.defaults.segment_size as nat, 8),
            description: around(SEGMENT_TEXT@, build.bounds.min_segment_size as nat, around(RANGE_TEXT@, build.bounds.max_segment_size as nat, Seq::empty())),
        },
        DescriptorView {
            key: build.keys.durability.text@,
            kind: build.kinds.string,
            default_value: REPLICATED.spec_bytes(),
            description: DURABILITY_TEXT@,
        },
        DescriptorView {
            key: build.keys.consumer_offset_durability.text@,
            kind: build.kinds.string,
            default_value: REPLICATED.spec_bytes(),
            description: OFFSET_DURABILITY_TEXT@,
        },
        DescriptorView {
            key: build.keys.messages_required_to_save.text@,
            kind: build.kinds.uint32,
            default_value: wire::le_bytes(build.defaults.messages_required_to_save as nat, 4),
            description: around(MESSAGES_TO_SAVE_TEXT@, build.bounds.max_messages_required_to_save as nat, MESSAGES_TO_SAVE_END@),
        },
        DescriptorView {
            key: build.keys.size_of_messages_required_to_save.text@,
            kind: build.kinds.uint64,
            default_value: wire::le_bytes(build.defaults.size_of_messages_required_to_save as nat, 8),
            description: around(SIZE_TO_SAVE_TEXT@, build.bounds.max_size_of_messages_required_to_save as nat, Seq::empty()),
        },
        DescriptorView {
            key: build.keys.preallocate_segments.text@,
            kind: build.kinds.boolean,
            default_value: seq![if build.defaults.preallocate_segments { 1u8 } else { 0u8 }],
            description: around(PREALLOCATE_TEXT@, build.bounds.max_preallocated_topic_bytes as nat, PREALLOCATE_END@),
        },
        DescriptorView {
            key: build.keys.dedup_window.text@,
            kind: build.kinds.uint64,
            default_value: wire::le_bytes(0, 8),
            description: around(WINDOW_TEXT@, MAX_DEDUP_WINDOW_MICROS as nat, WINDOW_END@),
        },
        DescriptorView {
            key: build.keys.dedup_header.text@,
            kind: build.kinds.string,
            default_value: Seq::<u8>::empty(),
            description: around(HEADER_TEXT@, MAX_DEDUP_HEADER_LENGTH as nat, HEADER_END@),
        },
    ]
}

/// `value` as the eight bytes of the wire.
fn le_u64(value: u64) -> (bytes: Vec<u8>)
    ensures
        bytes@ == wire::le_bytes(value as nat, 8),
{
    let mut bytes: Vec<u8> = Vec::new();
    push_le(&mut bytes, value as u128, 8);
    assert(bytes@ =~= wire::le_bytes(value as nat, 8));
    bytes
}

/// `value` as the four bytes of the wire.
fn le_u32(value: u32) -> (bytes: Vec<u8>)
    ensures
        bytes@ == wire::le_bytes(value as nat, 4),
{
    let mut bytes: Vec<u8> = Vec::new();
    push_le(&mut bytes, value as u128, 4);
    assert(bytes@ =~= wire::le_bytes(value as nat, 4));
    bytes
}

/// A text with a number in the middle.
fn sentence(before: &str, value: u64, after: &str) -> (text: String)
    ensures
        text@ == around(before@, value as nat, after@),
{
    let mut text = before.to_owned();
    push_decimal(&mut text, value);
    text.append(after);
    text
}

/// An option under a key that the wire can carry.
fn descriptor(key: &Name, kind: u8, default_value: Vec<u8>, description: String) -> (result: Result<
    OptionDescriptor,
    ResponseError,
>)
    ensures
        match result {
            Ok(entry) => key.fits_wire && entry@ == (DescriptorView {
                key: key.text@,
                kind,
                default_value: default_value@,
                description: description@,
            }),
            Err(error) => !key.fits_wire && error == ResponseError::InvalidFormat,
        },
{
    if key.fits_wire {
        Ok(OptionDescriptor { key: key.text.clone(), kind, default_value, description })
    } else {
        Err(ResponseError::InvalidFormat)
    }
}

/// Every key a topic can be created with, with the kind, default and bounds of
/// each.
pub fn topic_option_descriptors(build: &TopicOptionBuild) -> (result: Result<
    Vec<OptionDescriptor>,
    ResponseError,
>)
    ensures
        match result {
            Ok(entries) => build.keys.fit_wire() && descriptor_views(entries@) == topic_options(
                *build,
            ),
            Err(error) => !build.keys.fit_wire() && error == ResponseError::InvalidFormat,
        },
{
    proof {
        reveal_strlit("");
        assert(""@ =~= Seq::<char>::empty());
    }
    let compression_algorithm = descriptor(&build.keys.compression_algorithm, build.kinds.string, NONE.as_bytes_vec(), COMPRESSION_TEXT.to_owned())?;
    let message_expiry = descriptor(&build.keys.message_expiry, build.kinds.uint64, le_u64(build.defaults.message_expiry), EXPIRY_TEXT.to_owned())?;
    let max_topic_size = descriptor(&build.keys.max_topic_size, build.kinds.uint64, le_u64(build.defaults.max_topic_size), MAX_SIZE_TEXT.to_owned())?;
    let segment_size = descriptor(&build.keys.segment_size, build.kinds.uint64, le_u64(build.defaults.segment_size), sentence(SEGMENT_TEXT, build.bounds.min_segment_size, sentence(RANGE_TEXT, build.bounds.max_segment_size, "").as_str()))?;
    let durability = descriptor(&build.keys.durability, build.kinds.string, REPLICATED.as_bytes_vec(), DURABILITY_TEXT.to_owned())?;
    let consumer_offset_durability = descriptor(&build.keys.consumer_offset_durability, build.kinds.string, REPLICATED.as_bytes_vec(), OFFSET_DURABILITY_TEXT.to_owned())?;
    let messages_required_to_save = descriptor(&build.keys.messages_required_to_save, build.kinds.uint32, le_u32(build.defaults.messages_required_to_save), sentence(MESSAGES_TO_SAVE_TEXT, build.bounds.max_messages_required_to_save as u64, MESSAGES_TO_SAVE_END))?;
    let size_of_messages_required_to_save = descriptor(&build.keys.size_of_messages_required_to_save, build.kinds.uint64, le_u64(build.defaults.size_of_messages_required_to_save), sentence(SIZE_TO_SAVE_TEXT, build.bounds.max_size_of_messages_required_to_save, ""))?;
    let preallocate_segments = descriptor(&build.keys.preallocate_segments, build.kinds.boolean, vec![if build.defaults.preallocate_segments { 1u8 } else { 0u8 }], sentence(PREALLOCATE_TEXT, build.bounds.max_preallocated_topic_bytes, PREALLOCATE_END))?;
    let dedup_window = descriptor(&build.keys.dedup_window, build.kinds.uint64, le_u64(0), sentence(WINDOW_TEXT, MAX_DEDUP_WINDOW_MICROS, WINDOW_END))?;
    let dedup_header = descriptor(&build.keys.dedup_header, build.kinds.string, Vec::new(), sentence(HEADER_TEXT, MAX_DEDUP_HEADER_LENGTH as u64, HEADER_END))?;
    let entries: Vec<OptionDescriptor> = vec![
        compression_algorithm,
        message_expiry,
        max_topic_size,
        segment_size,
        durability,
        consumer_offset_durability,
        messages_required_to_save,
        size_of_messages_required_to_save,
        preallocate_segments,
        dedup_window,
        dedup_header,
    ];
    let ghost expected = topic_options(*build);
    assert(compression_algorithm@ =~= expected[0]);
    assert(message_expiry@ =~= expected[1]);
    assert(max_topic_size@ =~= expected[2]);
    assert(segment_size@ =~= expected[3]);
    assert(durability@ =~= expected[4]);
    assert(consumer_offset_durability@ =~= expected[5]);
    assert(messages_required_to_save@ =~= expected[6]);
    assert(size_of_messages_required_to_save@ =~= expected[7]);
    assert(preallocate_segments@ =~= expected[8]);
    assert(dedup_window@ =~= expected[9]);
    assert(dedup_header@ =~= expected[10]);
    assert(descriptor_views(entries@) =~= topic_options(*build));
    Ok(entries)
}

} // verus!
