use std::str::FromStr;

use message_dedup::audit::{
    check_indexes_agree, check_invariants, check_prefixes_agree, key_of, latest_view,
    logs_are_sound, CommittedMessage, IndexState, ReplicaLog, Violation,
};
use message_dedup::policy::DedupHeaderName;

fn log(replica: u8, messages: &[(u64, Option<&str>)]) -> ReplicaLog {
    ReplicaLog {
        replica,
        messages: messages
            .iter()
            .map(|(offset, key)| CommittedMessage {
                offset: *offset,
                user_headers: key.unwrap_or("").as_bytes().to_vec(),
            })
            .collect(),
        keys: messages
            .iter()
            .map(|(_, key)| key.map(str::to_string))
            .collect(),
    }
}

fn state(replica: u8, commit: u64, fingerprint: u128) -> IndexState {
    IndexState {
        replica,
        commit,
        fingerprint,
    }
}

#[test]
fn logs_that_agree_pass() {
    let logs = vec![
        log(0, &[(5, Some("a")), (6, None), (7, Some("b"))]),
        log(1, &[(5, Some("a")), (6, None)]),
    ];
    let acked = vec!["b".to_string(), "a".to_string()];
    assert_eq!(check_invariants(&logs, &acked), None);
    assert_eq!(check_prefixes_agree(&logs), None);
    assert!(logs_are_sound(&logs, &vec![vec![(5, 1)], vec![(5, 1), (6, 2)]]));
}

#[test]
fn a_key_committed_twice_is_found() {
    let logs = vec![
        log(3, &[(0, Some("a"))]),
        log(4, &[(0, Some("a")), (1, Some("b")), (2, None), (3, None), (4, Some("b"))]),
    ];
    assert_eq!(
        check_invariants(&logs, &Vec::new()),
        Some(Violation::KeyTwice {
            replica: 4,
            first: 1,
            second: 4
        })
    );
}

#[test]
fn an_acknowledged_key_may_be_missing_only_where_the_log_lags() {
    let acked = vec!["a".to_string(), "c".to_string()];
    let logs = vec![
        log(0, &[(0, Some("a"))]),
        log(1, &[(0, Some("a")), (1, Some("b"))]),
    ];
    assert_eq!(
        check_invariants(&logs, &acked),
        Some(Violation::KeyLost {
            replica: 1,
            acked: 1
        })
    );
}

#[test]
fn of_several_lost_keys_the_smallest_is_named() {
    let logs = vec![log(0, &[(0, Some("m"))])];
    // Listed as they were acknowledged; "k10" comes before "k9", and a prefix
    // before what it starts.
    let acked: Vec<String> = ["m", "k9", "k10", "k100", "k10"]
        .iter()
        .map(|key| (*key).to_string())
        .collect();
    assert_eq!(
        check_invariants(&logs, &acked),
        Some(Violation::KeyLost {
            replica: 0,
            acked: 2
        })
    );
}

#[test]
fn a_gap_comes_before_a_divergence() {
    let logs = vec![
        log(0, &[(0, Some("a")), (1, Some("b"))]),
        log(1, &[(0, Some("x")), (2, Some("b"))]),
    ];
    assert_eq!(
        check_prefixes_agree(&logs),
        Some(Violation::Gap {
            replica: 1,
            after: 0
        })
    );
    let logs = vec![
        log(0, &[(0, Some("a")), (1, Some("b"))]),
        log(1, &[(0, Some("x"))]),
    ];
    assert_eq!(
        check_prefixes_agree(&logs),
        Some(Violation::Divergence { left: 0, right: 1 })
    );
    assert!(!logs_are_sound(&logs, &Vec::new()));
    // The last offset there is has none after it.
    let end = vec![log(0, &[(u64::MAX, None), (0, None)])];
    assert_eq!(
        check_prefixes_agree(&end),
        Some(Violation::Gap {
            replica: 0,
            after: 0
        })
    );
}

#[test]
fn timestamps_must_agree_too() {
    let logs = vec![log(0, &[(0, Some("a"))]), log(1, &[(0, Some("a"))])];
    assert!(logs_are_sound(&logs, &vec![vec![(0, 5)], vec![(0, 5)]]));
    assert!(!logs_are_sound(&logs, &vec![vec![(0, 5)], vec![(0, 6)]]));
    assert!(logs_are_sound(&Vec::new(), &Vec::new()));
}

#[test]
fn only_replicas_at_the_newest_commit_must_hold_one_index() {
    assert_eq!(
        check_indexes_agree(&vec![state(0, 4, 1), state(1, 9, 7), state(2, 9, 7)]),
        None
    );
    assert_eq!(
        check_indexes_agree(&vec![state(0, 9, 7), state(1, 4, 1), state(2, 9, 8)]),
        Some(2)
    );
}

#[test]
fn the_newest_view_is_the_largest() {
    assert_eq!(latest_view(&vec![3]), 3);
    assert_eq!(latest_view(&vec![3, 9, 4]), 9);
}

#[test]
fn a_key_that_is_not_text_reads_with_replacements() {
    let header = DedupHeaderName::from_str("k").unwrap();
    let mut block = vec![2, 1, 0, 0, 0, b'k', 1, 3, 0, 0, 0];
    block.extend_from_slice(&[b'a', 0xff, b'b']);
    assert_eq!(key_of(&block, &header), Some("a\u{fffd}b".to_string()));
    block[12] = b'-';
    assert_eq!(key_of(&block, &header), Some("a-b".to_string()));
    assert_eq!(key_of(&[], &header), None);
}
