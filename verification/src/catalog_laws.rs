//! What the option catalog lists.

use vstd::prelude::*;
use vstd::string::*;

use crate::decimal;
use crate::options_catalog;
use crate::options_catalog::{OptionDescriptor, TopicOptionBuild, TopicOptionKeys};
use crate::wire;

verus! {

/// The catalog lists eleven options, each under its own key of the build, in
/// this order.
pub proof fn lemma_catalog_keys(build: TopicOptionBuild)
    ensures
        ({
            let options = options_catalog::topic_options(build);
            &&& options.len() == 11
            &&& options[0].key == build.keys.compression_algorithm.text@
            &&& options[1].key == build.keys.message_expiry.text@
            &&& options[2].key == build.keys.max_topic_size.text@
            &&& options[3].key == build.keys.segment_size.text@
            &&& options[4].key == build.keys.durability.text@
            &&& options[5].key == build.keys.consumer_offset_durability.text@
            &&& options[6].key == build.keys.messages_required_to_save.text@
            &&& options[7].key == build.keys.size_of_messages_required_to_save.text@
            &&& options[8].key == build.keys.preallocate_segments.text@
            &&& options[9].key == build.keys.dedup_window.text@
            &&& options[10].key == build.keys.dedup_header.text@
        }),
{
}

/// Algorithms, durabilities and the dedup header are texts, the flush count is
/// a short number, preallocation is a flag, and the rest are long numbers.
pub proof fn lemma_catalog_kinds(build: TopicOptionBuild)
    ensures
        ({
            let options = options_catalog::topic_options(build);
            &&& options[0].kind == build.kinds.string
            &&& options[1].kind == build.kinds.uint64
            &&& options[2].kind == build.kinds.uint64
            &&& options[3].kind == build.kinds.uint64
            &&& options[4].kind == build.kinds.string
            &&& options[5].kind == build.kinds.string
            &&& options[6].kind == build.kinds.uint32
            &&& options[7].kind == build.kinds.uint64
            &&& options[8].kind == build.kinds.boolean
            &&& options[9].kind == build.kinds.uint64
            &&& options[10].kind == build.kinds.string
        }),
{
}

/// Each option has its own default of the build, numbers in eight bytes or
/// four with the least significant first. No compression is the default, and
/// both durabilities default to replicated; deduplication is off.
pub proof fn lemma_catalog_defaults(build: TopicOptionBuild)
    ensures
        ({
            let options = options_catalog::topic_options(build);
            &&& options[0].default_value == "none".spec_bytes()
            &&& options[1].default_value == wire::le_bytes(
                build.defaults.message_expiry as nat,
                8,
            )
            &&& options[2].default_value == wire::le_bytes(
                build.defaults.max_topic_size as nat,
                8,
            )
            &&& options[3].default_value == wire::le_bytes(build.defaults.segment_size as nat, 8)
            &&& options[4].default_value == "replicated".spec_bytes()
            &&& options[5].default_value == "replicated".spec_bytes()
            &&& options[6].default_value == wire::le_bytes(
                build.defaults.messages_required_to_save as nat,
                4,
            )
            &&& options[7].default_value == wire::le_bytes(
                build.defaults.size_of_messages_required_to_save as nat,
                8,
            )
            &&& options[8].default_value.len() == 1
            &&& build.defaults.preallocate_segments ==> options[8].default_value[0] == 1
            &&& !build.defaults.preallocate_segments ==> options[8].default_value[0] == 0
            &&& options[9].default_value.len() == 8
            &&& forall|i: int| 0 <= i < 8 ==> #[trigger] options[9].default_value[i] == 0
            &&& options[10].default_value.len() == 0
        }),
{
    reveal_with_fuel(wire::le_bytes, 9);
}

/// Where a value is checked against a bound, the wording of its option spells
/// that bound: the text before it, the bound in decimal, the text after it.
pub proof fn lemma_catalog_spells_the_bounds(build: TopicOptionBuild)
    ensures
        ({
            let options = options_catalog::topic_options(build);
            &&& options[0].description == options_catalog::COMPRESSION_TEXT@
            &&& options[1].description == options_catalog::EXPIRY_TEXT@
            &&& options[2].description == options_catalog::MAX_SIZE_TEXT@
            &&& options[3].description == options_catalog::SEGMENT_TEXT@ + decimal::decimal(
                build.bounds.min_segment_size as nat,
            ) + options_catalog::RANGE_TEXT@ + decimal::decimal(
                build.bounds.max_segment_size as nat,
            )
            &&& options[4].description == options_catalog::DURABILITY_TEXT@
            &&& options[5].description == options_catalog::OFFSET_DURABILITY_TEXT@
            &&& options[6].description == options_catalog::MESSAGES_TO_SAVE_TEXT@
                + decimal::decimal(build.bounds.max_messages_required_to_save as nat)
                + options_catalog::MESSAGES_TO_SAVE_END@
            &&& options[7].description == options_catalog::SIZE_TO_SAVE_TEXT@ + decimal::decimal(
                build.bounds.max_size_of_messages_required_to_save as nat,
            )
            &&& options[8].description == options_catalog::PREALLOCATE_TEXT@ + decimal::decimal(
                build.bounds.max_preallocated_topic_bytes as nat,
            ) + options_catalog::PREALLOCATE_END@
            &&& options[9].description == options_catalog::WINDOW_TEXT@ + decimal::decimal(
                86_400_000_000,
            ) + options_catalog::WINDOW_END@
            &&& options[10].description == options_catalog::HEADER_TEXT@ + decimal::decimal(64)
                + options_catalog::HEADER_END@
        }),
{
    let options = options_catalog::topic_options(build);
    assert(options[3].description =~= options_catalog::SEGMENT_TEXT@ + decimal::decimal(
        build.bounds.min_segment_size as nat,
    ) + options_catalog::RANGE_TEXT@ + decimal::decimal(build.bounds.max_segment_size as nat));
    assert(options[7].description =~= options_catalog::SIZE_TO_SAVE_TEXT@ + decimal::decimal(
        build.bounds.max_size_of_messages_required_to_save as nat,
    ));
}

/// The keys fit the wire exactly when every one of them does.
pub proof fn lemma_catalog_fits_meaning(keys: TopicOptionKeys)
    ensures
        keys.fit_wire() <==> {
            &&& keys.compression_algorithm.fits_wire
            &&& keys.message_expiry.fits_wire
            &&& keys.max_topic_size.fits_wire
            &&& keys.segment_size.fits_wire
            &&& keys.durability.fits_wire
            &&& keys.consumer_offset_durability.fits_wire
            &&& keys.messages_required_to_save.fits_wire
            &&& keys.size_of_messages_required_to_save.fits_wire
            &&& keys.preallocate_segments.fits_wire
            &&& keys.dedup_window.fits_wire
            &&& keys.dedup_header.fits_wire
        },
{
}

/// Options are seen as they are listed, one for one, with every field.
pub proof fn lemma_descriptors_are_seen_as_listed(entries: Seq<OptionDescriptor>)
    ensures
        options_catalog::descriptor_views(entries).len() == entries.len(),
        forall|i: int|
            0 <= i < entries.len() ==> {
                let seen = #[trigger] options_catalog::descriptor_views(entries)[i];
                &&& seen.key == entries[i].key@
                &&& seen.kind == entries[i].kind
                &&& seen.default_value == entries[i].default_value@
                &&& seen.description == entries[i].description@
            },
{
}

} // verus!
