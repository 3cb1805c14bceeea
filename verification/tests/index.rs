use message_dedup::index::MessageDedupIndex;
use message_dedup::index_model::{DedupCounters, DedupMatch, REBUILT_OP};
use message_dedup::key::DedupKey;

const WINDOW: u64 = 1_000;

fn key(value: u128) -> DedupKey {
    DedupKey::from_raw(value)
}

#[test]
fn committed_keys_match_inside_the_window_only() {
    let mut index = MessageDedupIndex::new(16);
    index.record_committed(key(1), 10, 5_000, 3, WINDOW);
    assert_eq!(
        index.lookup(key(1), 5_999, WINDOW, 0),
        Some(DedupMatch::Committed)
    );
    assert_eq!(
        index.lookup(key(1), 6_000, WINDOW, 0),
        None,
        "window is half-open"
    );
    assert_eq!(index.lookup(key(2), 5_000, WINDOW, 0), None);
}

#[test]
fn pending_keys_only_ever_defer() {
    let mut index = MessageDedupIndex::new(16);
    index.record_pending(key(1), 0, 5_000, 7);
    assert_eq!(
        index.lookup(key(1), 5_000, WINDOW, 0),
        Some(DedupMatch::Uncommitted)
    );
    // A committed occurrence outranks a pending one of the same key.
    index.record_committed(key(1), 0, 5_000, 7, WINDOW);
    assert_eq!(
        index.lookup(key(1), 5_000, WINDOW, 0),
        Some(DedupMatch::Committed)
    );
}

#[test]
fn commit_sweeps_pending_keys_at_or_below_its_op_including_unreported_ones() {
    // Op 4 appended key 1 on this replica, but a view change replaced op 4
    // without this replica hearing of the truncation. When the canonical
    // op 4 (key 2) commits, key 1's stale occurrence must go: left behind,
    // it would defer every retry of an event that never committed.
    let mut index = MessageDedupIndex::new(16);
    index.record_pending(key(1), 10, 1_000, 4);
    index.record_pending(key(3), 11, 1_000, 5);
    index.record_committed(key(2), 10, 1_100, 4, WINDOW);
    index.sweep_committed_through(4);
    assert_eq!(index.lookup(key(1), 1_100, WINDOW, 0), None);
    assert_eq!(
        index.lookup(key(2), 1_100, WINDOW, 0),
        Some(DedupMatch::Committed)
    );
    assert_eq!(
        index.lookup(key(3), 1_100, WINDOW, 0),
        Some(DedupMatch::Uncommitted)
    );
}

#[test]
fn a_pending_key_at_or_below_the_commit_point_is_ignored_not_deferred() {
    // Replayed at boot for an op that already committed, and never swept
    // because nothing has committed since. Deferring on it would block
    // the very commits that would sweep it.
    let mut index = MessageDedupIndex::new(16);
    index.record_pending(key(1), 0, 100, 5);
    assert_eq!(
        index.lookup(key(1), 100, WINDOW, 4),
        Some(DedupMatch::Uncommitted)
    );
    assert_eq!(index.lookup(key(1), 100, WINDOW, 5), None);
    assert_eq!(index.lookup(key(1), 100, WINDOW, 9), None);
}

#[test]
fn truncation_rolls_back_pending_keys_and_never_committed_ones() {
    let mut index = MessageDedupIndex::new(16);
    index.record_committed(key(1), 0, 100, 3, WINDOW);
    index.record_pending(key(2), 1, 110, 4);
    index.record_pending(key(3), 2, 120, 5);
    index.record_pending(key(4), 3, 130, 6);
    index.truncate_from_op(5);
    assert_eq!(
        index.lookup(key(1), 130, WINDOW, 0),
        Some(DedupMatch::Committed)
    );
    assert_eq!(
        index.lookup(key(2), 130, WINDOW, 0),
        Some(DedupMatch::Uncommitted)
    );
    assert_eq!(index.lookup(key(3), 130, WINDOW, 0), None);
    assert_eq!(index.lookup(key(4), 130, WINDOW, 0), None);
    // Truncating below a committed op leaves it alone.
    index.truncate_from_op(1);
    assert_eq!(
        index.lookup(key(1), 130, WINDOW, 0),
        Some(DedupMatch::Committed)
    );
    assert_eq!(index.pending_len(), 0);
}

#[test]
fn re_recording_a_pending_op_takes_the_stamped_offset_in_place() {
    let mut index = MessageDedupIndex::new(16);
    index.record_pending(key(7), 100, 5_000, 9);
    index.record_pending(key(7), 104, 5_000, 9);
    assert_eq!(index.pending_len(), 1);
    assert_eq!(index.pending_entry(key(7)).unwrap().offset, 104);
    // A single sweep entry per recording, so the sweep cannot double-free.
    index.sweep_committed_through(9);
    assert_eq!(index.pending_len(), 0);
}

#[test]
fn a_newer_pending_occurrence_is_not_swept_by_an_older_commit() {
    let mut index = MessageDedupIndex::new(16);
    index.record_pending(key(1), 0, 100, 2);
    index.record_pending(key(1), 5, 200, 6);
    index.sweep_committed_through(3);
    assert_eq!(index.pending_entry(key(1)).unwrap().op, 6);
}

#[test]
fn eviction_follows_the_newest_committed_timestamp_not_a_clock() {
    let mut index = MessageDedupIndex::new(16);
    index.record_committed(key(1), 0, 1_000, 1, WINDOW);
    index.record_committed(key(2), 1, 1_500, 2, WINDOW);
    assert_eq!(index.len(), 2);
    index.record_committed(key(3), 2, 2_200, 3, WINDOW);
    assert!(index.committed_entry(key(1)).is_none());
    assert!(index.committed_entry(key(2)).is_some());
    assert_eq!(index.len(), 2);
}

#[test]
fn capacity_evicts_oldest_and_counts_live_evictions_as_saturation() {
    let mut index = MessageDedupIndex::new(3);
    for value in 0..5u128 {
        index.record_committed(
            key(value),
            value as u64,
            100 + value as u64,
            1 + value as u64,
            WINDOW,
        );
    }
    assert_eq!(index.len(), 3);
    assert!(index.committed_entry(key(0)).is_none() && index.committed_entry(key(1)).is_none());
    assert!((2..5).all(|value| index.committed_entry(key(value)).is_some()));
    assert_eq!(index.take_counters().evicted_live, 2);
    assert_eq!(index.counters().evicted_live, 0, "take resets");
}

#[test]
fn rebuild_overlapping_the_commit_walk_keeps_one_entry_with_the_real_op() {
    let mut walked_first = MessageDedupIndex::new(16);
    walked_first.record_committed(key(7), 50, 5_000, REBUILT_OP, WINDOW);
    walked_first.record_committed(key(7), 50, 5_000, 12, WINDOW);
    assert_eq!(walked_first.committed_entry(key(7)).unwrap().op, 12);
    let mut committed_first = MessageDedupIndex::new(16);
    committed_first.record_committed(key(7), 50, 5_000, 12, WINDOW);
    committed_first.record_committed(key(7), 50, 5_000, REBUILT_OP, WINDOW);
    assert_eq!(committed_first.committed_entry(key(7)).unwrap().op, 12);
    assert_eq!(walked_first.fingerprint(), committed_first.fingerprint());
}

#[test]
fn fingerprint_depends_on_committed_content_only() {
    // Two replicas at the same commit, one with an extra pending tail.
    let log: Vec<(u128, u64, u64, u64)> = (0..200u128)
        .map(|value| {
            (
                value % 37,
                value as u64,
                1_000 + value as u64 * 7,
                1 + value as u64 / 4,
            )
        })
        .collect();
    let mut ahead = MessageDedupIndex::new(1_000);
    let mut behind = MessageDedupIndex::new(1_000);
    for (value, offset, timestamp, op) in &log {
        ahead.record_pending(key(*value), offset + 1_000, *timestamp, *op);
        ahead.record_committed(key(*value), *offset, *timestamp, *op, WINDOW);
        behind.record_committed(key(*value), *offset, *timestamp, *op, WINDOW);
    }
    ahead.record_pending(key(999), 5_000, 9_999, 999);
    assert_eq!(ahead.fingerprint(), behind.fingerprint());
    assert_eq!(ahead.len(), behind.len());
}

#[test]
fn stale_order_items_do_not_grow_without_bound() {
    let mut index = MessageDedupIndex::new(8);
    for round in 0..10_000u64 {
        index.record_committed(key(u128::from(round % 4)), round, 10_000, round + 1, WINDOW);
    }
    assert_eq!(index.len(), 4);
    assert!(
        index.order_len() <= 64.max(index.len() * 2) + 1,
        "{}",
        index.order_len()
    );
}

#[test]
fn clear_resets_everything_including_the_eviction_reference() {
    let mut index = MessageDedupIndex::new(8);
    index.record_committed(key(1), 0, 50_000, 1, WINDOW);
    index.record_pending(key(3), 1, 50_000, 2);
    index.clear();
    assert!(index.is_empty() && index.pending_len() == 0);
    index.record_committed(key(2), 0, 100, 1, WINDOW);
    assert!(index.committed_entry(key(2)).is_some());
}

#[test]
fn an_index_holds_at_least_one_entry() {
    let mut index = MessageDedupIndex::new(0);
    assert_eq!(index.entries_max(), 1);
    index.record_committed(key(1), 0, 100, 1, WINDOW);
    index.record_committed(key(2), 1, 110, 2, WINDOW);
    assert_eq!(index.len(), 1);
    assert!(index.committed_entry(key(2)).is_some());
    index.set_entries_max(0, WINDOW);
    assert_eq!(index.entries_max(), 1);
}

#[test]
fn lowering_the_cap_evicts_the_oldest_at_once() {
    let mut index = MessageDedupIndex::new(8);
    for value in 0..5u128 {
        index.record_committed(key(value), value as u64, 100, 1, WINDOW);
    }
    index.set_entries_max(2, WINDOW);
    assert_eq!((index.len(), index.entries_max()), (2, 2));
    assert!(index.committed_entry(key(3)).is_some() && index.committed_entry(key(4)).is_some());
    assert_eq!(index.counters().evicted_live, 3);
}

#[test]
fn an_expired_entry_evicted_by_age_is_not_saturation() {
    let mut index = MessageDedupIndex::new(1);
    index.record_committed(key(1), 0, 1_000, 1, WINDOW);
    // At the cutoff exactly: still live, so the cap evicts it as saturation.
    index.record_committed(key(2), 1, 2_000, 2, WINDOW);
    assert_eq!(index.counters().evicted_live, 1);
    // Past the cutoff: it goes by age.
    index.record_committed(key(3), 2, 3_001, 3, WINDOW);
    assert_eq!(index.counters().evicted_live, 1);
    assert_eq!(index.len(), 1);
}

#[test]
fn a_replaced_key_moves_to_the_newest_place() {
    let mut index = MessageDedupIndex::new(2);
    index.record_committed(key(1), 0, 100, 1, WINDOW);
    index.record_committed(key(2), 1, 110, 2, WINDOW);
    index.record_committed(key(1), 2, 120, 3, WINDOW);
    index.record_committed(key(3), 3, 130, 4, WINDOW);
    assert!(index.committed_entry(key(2)).is_none());
    assert_eq!(index.committed_entry(key(1)).unwrap().offset, 2);
    assert!(index.committed_entry(key(3)).is_some());
}

#[test]
fn the_same_occurrence_keeps_its_place_and_timestamp() {
    let mut index = MessageDedupIndex::new(2);
    index.record_committed(key(1), 0, 100, 7, WINDOW);
    index.record_committed(key(2), 1, 110, 8, WINDOW);
    index.record_committed(key(1), 0, 150, 9, WINDOW);
    let kept = *index.committed_entry(key(1)).unwrap();
    assert_eq!((kept.offset, kept.timestamp, kept.op), (0, 100, 7));
    index.record_committed(key(3), 2, 160, 10, WINDOW);
    assert!(index.committed_entry(key(1)).is_none(), "still the oldest");
}

#[test]
fn the_window_saturates_at_the_end_of_time() {
    let mut index = MessageDedupIndex::new(4);
    index.record_committed(key(1), 0, u64::MAX - 1, 1, WINDOW);
    assert_eq!(
        index.lookup(key(1), u64::MAX - 1, WINDOW, 0),
        Some(DedupMatch::Committed)
    );
    assert_eq!(index.lookup(key(1), u64::MAX, WINDOW, 0), None);
}

#[test]
fn counters_add_up_and_reset_when_taken() {
    let mut index = MessageDedupIndex::new(4);
    assert_eq!(index.counters(), DedupCounters::default());
    index.note_dropped(3);
    index.note_dropped(2);
    index.note_deferred();
    index.note_unconfirmed_commit();
    index.note_unconfirmed_commit();
    let taken = index.take_counters();
    assert_eq!((taken.dropped, taken.deferred), (5, 1));
    assert_eq!((taken.evicted_live, taken.unconfirmed_commits), (0, 2));
    assert_eq!(index.counters(), DedupCounters::default());
    index.note_dropped(u64::MAX);
    index.note_dropped(1);
    assert_eq!(index.counters().dropped, u64::MAX);
}

#[test]
fn entries_are_listed_by_key() {
    let mut index = MessageDedupIndex::new(8);
    index.record_committed(key(30), 0, 100, 1, WINDOW);
    index.record_committed(key(10), 1, 110, 2, WINDOW);
    index.record_committed(key(20), 2, 120, 3, WINDOW);
    assert_eq!(
        index.entries_sorted(),
        vec![(10, 1, 110, 2), (20, 2, 120, 3), (30, 0, 100, 1)]
    );
}

#[test]
fn the_fingerprint_is_the_hash_of_the_listing_without_ops() {
    let mut index = MessageDedupIndex::new(8);
    assert_eq!(index.fingerprint(), 0x99aa06d3_014798d8_6001c324_468d497f);
    index.record_committed(key(2), 7, 100, 1, WINDOW);
    index.record_committed(key(1), 8, 110, 2, WINDOW);
    let mut material: Vec<u8> = Vec::new();
    for (raw, offset, timestamp) in [(1u128, 8u64, 110u64), (2, 7, 100)] {
        material.extend_from_slice(&raw.to_le_bytes());
        material.extend_from_slice(&offset.to_le_bytes());
        material.extend_from_slice(&timestamp.to_le_bytes());
    }
    assert_eq!(index.fingerprint_bytes(), material);
    assert_eq!(
        index.fingerprint(),
        twox_hash::XxHash3_128::oneshot(&material)
    );
}

#[test]
fn a_rebuild_holds_what_the_commit_walk_held() {
    let mut walked = MessageDedupIndex::new(4);
    let mut rebuilt = MessageDedupIndex::new(4);
    rebuilt.record_pending(key(5), 90, 1_900, 40);
    for value in 0..20u64 {
        let (raw, timestamp, op) = (u128::from(value % 7), 100 + value * 90, 1 + value);
        walked.record_committed(key(raw), value, timestamp, op, WINDOW);
        rebuilt.record_committed(key(raw), value, timestamp, REBUILT_OP, WINDOW);
    }
    assert_eq!(walked.fingerprint(), rebuilt.fingerprint());
    assert_eq!(walked.len(), rebuilt.len());
    assert_eq!(walked.counters(), rebuilt.counters());
}

#[test]
fn a_sweep_and_a_truncation_meet_at_their_op() {
    let mut index = MessageDedupIndex::new(4);
    for op in 1..=4u64 {
        index.record_pending(key(u128::from(op)), op, 100, op);
    }
    index.sweep_committed_through(2);
    assert_eq!(index.pending_len(), 2);
    assert!(index.pending_entry(key(2)).is_none() && index.pending_entry(key(3)).is_some());
    index.truncate_from_op(4);
    assert_eq!(index.pending_len(), 1);
    assert!(index.pending_entry(key(3)).is_some() && index.pending_entry(key(4)).is_none());
}

#[test]
fn a_sweep_through_the_largest_op_leaves_nothing_pending() {
    let mut index = MessageDedupIndex::new(16);
    index.record_pending(key(1), 0, 100, 5);
    index.record_pending(key(2), 1, 100, u64::MAX);
    assert_eq!(index.pending_len(), 2);
    index.sweep_committed_through(u64::MAX);
    assert_eq!(index.pending_len(), 0);
}
