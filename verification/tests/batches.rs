use std::str::FromStr;

use message_dedup::batch::{
    classify_batch, classify_keys, record_committed_batch, record_pending_batch,
    stamped_batch_keys, Batch, BatchMessage, BatchVerdict,
};
use message_dedup::index::MessageDedupIndex;
use message_dedup::key::{dedup_key, DedupKey};
use message_dedup::policy::{DedupHeaderName, IggyDuration, MessageDedupPolicy};

const WINDOW: u64 = 1_000;
const STRING_KIND: u8 = 2;

fn policy(header: &str) -> MessageDedupPolicy {
    MessageDedupPolicy {
        window: IggyDuration::from(WINDOW),
        header: DedupHeaderName::from_str(header).unwrap(),
    }
}

fn headers(entries: &[(&str, u8, &[u8])]) -> Vec<u8> {
    let mut block = Vec::new();
    for (name, kind, value) in entries {
        block.push(STRING_KIND);
        block.extend_from_slice(&(name.len() as u32).to_le_bytes());
        block.extend_from_slice(name.as_bytes());
        block.push(*kind);
        block.extend_from_slice(&(value.len() as u32).to_le_bytes());
        block.extend_from_slice(value);
    }
    block
}

fn batch(keys: &[Option<&str>]) -> Batch {
    let mut messages = Vec::with_capacity(keys.len());
    for (index, value) in keys.iter().enumerate() {
        messages.push(BatchMessage {
            offset_delta: index as u32,
            user_headers: match value {
                Some(value) => headers(&[("dedup-key", STRING_KIND, value.as_bytes())]),
                None => Vec::new(),
            },
        });
    }
    Batch {
        base_offset: 0,
        base_timestamp: 0,
        messages,
    }
}

fn classify(keys: &[Option<&str>], index: &MessageDedupIndex, now: u64) -> BatchVerdict {
    classify_batch(&batch(keys), &policy("dedup-key"), index, now, 0)
}

fn key_of(value: &str) -> DedupKey {
    dedup_key(
        &headers(&[("dedup-key", STRING_KIND, value.as_bytes())]),
        &DedupHeaderName::from_str("dedup-key").unwrap(),
    )
    .unwrap()
}

#[test]
fn fresh_batch_keeps_everything() {
    let verdict = classify(&[Some("a"), None, Some("b")], &MessageDedupIndex::new(8), 0);
    assert!(verdict.keeps_all());
    assert_eq!(verdict.keep, vec![true, true, true]);
    assert_eq!(
        verdict.kept_keys,
        vec![Some(key_of("a")), None, Some(key_of("b"))]
    );
}

#[test]
fn repeats_inside_one_batch_keep_the_first_only() {
    let verdict = classify(
        &[Some("a"), Some("a"), None, None, Some("a")],
        &MessageDedupIndex::new(8),
        0,
    );
    assert_eq!(verdict.keep, vec![true, false, true, true, false]);
    assert_eq!(verdict.dropped, 2);
    assert!(!verdict.matched_uncommitted);
}

#[test]
fn committed_live_keys_are_dropped_and_expired_ones_readmitted() {
    let mut index = MessageDedupIndex::new(8);
    index.record_committed(key_of("old"), 0, 100, 1, WINDOW);
    index.record_committed(key_of("new"), 1, 900, 2, WINDOW);
    let verdict = classify(&[Some("old"), Some("new"), Some("fresh")], &index, 1_500);
    assert_eq!(verdict.keep, vec![true, false, true], "old expired at 1100");
    assert!(!verdict.matched_uncommitted);
}

#[test]
fn a_pending_match_is_flagged_and_never_dropped() {
    // Dropping against an occurrence that can still be truncated could
    // lose the event; the caller defers the whole request instead.
    let mut index = MessageDedupIndex::new(8);
    index.record_pending(key_of("pending"), 5, 1_000, 9);
    index.record_committed(key_of("done"), 4, 1_000, 3, WINDOW);
    let verdict = classify(&[Some("pending"), Some("done"), Some("new")], &index, 1_000);
    assert!(verdict.matched_uncommitted);
    assert_eq!(verdict.keep, vec![true, false, true]);
}

#[test]
fn committed_batches_use_stamped_offsets_and_timestamp_and_sweep_pending() {
    let mut stamped = batch(&[Some("a"), None, Some("b")]);
    stamped.base_offset = 40;
    stamped.base_timestamp = 7_000;
    let mut index = MessageDedupIndex::new(8);
    record_pending_batch(&mut index, &policy("dedup-key"), Some(&stamped), 11);
    assert_eq!(index.pending_len(), 2);
    record_committed_batch(&mut index, &policy("dedup-key"), Some(&stamped), 11);
    let a = index.committed_entry(key_of("a")).unwrap();
    let b = index.committed_entry(key_of("b")).unwrap();
    assert_eq!((a.offset, a.timestamp, a.op), (40, 7_000, 11));
    assert_eq!((b.offset, b.timestamp, b.op), (42, 7_000, 11));
    assert_eq!((index.len(), index.pending_len()), (2, 0));
}

#[test]
fn a_batch_of_duplicates_keeps_none() {
    let mut index = MessageDedupIndex::new(8);
    index.record_committed(key_of("a"), 0, 1_000, 1, WINDOW);
    index.record_committed(key_of("b"), 1, 1_000, 1, WINDOW);
    let verdict = classify(&[Some("a"), Some("b"), Some("a")], &index, 1_500);
    assert!(verdict.keeps_none() && !verdict.keeps_all());
    assert_eq!(verdict.dropped, 3);
    let empty = classify(&[], &index, 1_500);
    assert!(empty.keeps_none() && empty.keeps_all());
}

#[test]
fn messages_without_a_key_are_never_dropped() {
    let index = MessageDedupIndex::new(8);
    let verdict = classify_keys(&vec![None, None, None], &index, 10, WINDOW, 0);
    assert_eq!(verdict.keep, vec![true, true, true]);
    assert_eq!(verdict.kept_keys, vec![None, None, None]);
    assert_eq!(verdict.dropped, 0);
}

#[test]
fn a_repeat_of_a_pending_key_in_the_batch_is_dropped_once_flagged() {
    let mut index = MessageDedupIndex::new(8);
    index.record_pending(DedupKey::from_raw(1), 0, 100, 5);
    let keys = vec![Some(DedupKey::from_raw(1)), Some(DedupKey::from_raw(1))];
    let verdict = classify_keys(&keys, &index, 100, WINDOW, 4);
    assert_eq!(verdict.keep, vec![true, false]);
    assert!(verdict.matched_uncommitted);
    // At the commit point the pending occurrence is ignored.
    let later = classify_keys(&keys, &index, 100, WINDOW, 5);
    assert!(!later.matched_uncommitted);
}

#[test]
fn a_record_that_does_not_decode_has_no_keys() {
    let mut index = MessageDedupIndex::new(8);
    assert!(stamped_batch_keys(&policy("dedup-key"), None).is_empty());
    record_pending_batch(&mut index, &policy("dedup-key"), None, 3);
    assert_eq!(index.pending_len(), 0);
    index.record_pending(key_of("a"), 0, 10, 3);
    record_committed_batch(&mut index, &policy("dedup-key"), None, 3);
    assert_eq!((index.len(), index.pending_len()), (0, 0), "still sweeps");
}

#[test]
fn stamped_keys_skip_messages_without_one() {
    let mut stamped = batch(&[None, Some("a"), None, Some("a")]);
    stamped.base_offset = 100;
    stamped.base_timestamp = 9;
    assert_eq!(
        stamped_batch_keys(&policy("dedup-key"), Some(&stamped)),
        vec![(key_of("a"), 101, 9), (key_of("a"), 103, 9)]
    );
    assert!(stamped_batch_keys(&policy("other"), Some(&stamped)).is_empty());
}

#[test]
fn a_dropped_message_is_in_the_log_or_kept_earlier_in_the_batch() {
    // A run of admissions and commits: every key drawn is in the log once.
    let policy = policy("dedup-key");
    let mut index = MessageDedupIndex::new(64);
    let mut log: Vec<String> = Vec::new();
    let mut op = 0u64;
    for round in 0..30u64 {
        let names: Vec<String> = (0..4).map(|i| format!("e{}", (round * 5 + i * 3) % 11)).collect();
        let wanted: Vec<Option<&str>> = names.iter().map(|name| Some(name.as_str())).collect();
        let request = batch(&wanted);
        let verdict = classify_batch(&request, &policy, &index, round, op);
        assert!(!verdict.matched_uncommitted);
        for (i, kept) in verdict.keep.iter().enumerate() {
            if !kept {
                assert!(log.contains(&names[i]) || names[..i].contains(&names[i]));
            }
        }
        let kept: Vec<Option<&str>> = wanted
            .iter()
            .zip(&verdict.keep)
            .filter(|(_, keep)| **keep)
            .map(|(name, _)| *name)
            .collect();
        op += 1;
        let mut appended = batch(&kept);
        appended.base_offset = log.len() as u64;
        appended.base_timestamp = round;
        record_pending_batch(&mut index, &policy, Some(&appended), op);
        record_committed_batch(&mut index, &policy, Some(&appended), op);
        log.extend(kept.iter().flatten().map(|name| (*name).to_string()));
    }
    let mut distinct = log.clone();
    distinct.sort();
    distinct.dedup();
    assert_eq!(distinct.len(), log.len(), "no key twice within the window");
    assert_eq!(index.len(), log.len());
}

#[test]
fn a_batch_just_folded_is_dropped_when_resent() {
    let mut stamped = batch(&[Some("a"), None, Some("b"), Some("a")]);
    stamped.base_offset = 10;
    stamped.base_timestamp = 500;
    let mut index = MessageDedupIndex::new(8);
    record_committed_batch(&mut index, &policy("dedup-key"), Some(&stamped), u64::MAX);
    assert_eq!(index.counters().evicted_live, 0);
    let verdict = classify_batch(&stamped, &policy("dedup-key"), &index, 1_499, 0);
    assert_eq!(verdict.keep, vec![false, true, false, false]);
    let later = classify_batch(&stamped, &policy("dedup-key"), &index, 1_500, 0);
    assert_eq!(later.keep, vec![true, true, true, false]);
}
