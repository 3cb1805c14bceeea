use std::str::FromStr;

use message_dedup::policy::{
    DedupHeaderName, DedupHeaderNameError, IggyDuration, MessageDedupPolicy,
    MAX_DEDUP_HEADER_LENGTH, MAX_DEDUP_WINDOW_MICROS,
};

#[test]
fn header_name_round_trips_and_rejects_bad_lengths() {
    let name = DedupHeaderName::from_str("dedup-key").unwrap();
    assert_eq!(name.as_bytes(), b"dedup-key");
    assert_eq!(name.to_string(), "dedup-key");
    assert_eq!(
        DedupHeaderName::from_str(""),
        Err(DedupHeaderNameError::Empty)
    );
    let longest = "k".repeat(MAX_DEDUP_HEADER_LENGTH);
    assert!(DedupHeaderName::from_str(&longest).is_ok());
    assert_eq!(
        DedupHeaderName::from_str(&format!("{longest}k")),
        Err(DedupHeaderNameError::TooLong)
    );
}

#[test]
fn header_names_compare_by_content_not_padding() {
    let short = DedupHeaderName::from_str("ab").unwrap();
    let other = DedupHeaderName::from_str("abc").unwrap();
    assert_ne!(short, other);
    assert_eq!(short, DedupHeaderName::from_str("ab").unwrap());
}

#[test]
fn a_name_is_measured_in_bytes() {
    // Two bytes each in UTF-8.
    let fits = "é".repeat(MAX_DEDUP_HEADER_LENGTH / 2);
    let name = DedupHeaderName::from_str(&fits).unwrap();
    assert_eq!(name.as_bytes().len(), MAX_DEDUP_HEADER_LENGTH);
    assert_eq!(name.to_string(), fits);
    assert_eq!(
        DedupHeaderName::from_str(&format!("{fits}é")),
        Err(DedupHeaderNameError::TooLong)
    );
}

#[test]
fn a_policy_reports_its_window_in_micros() {
    let policy = MessageDedupPolicy {
        window: IggyDuration::from(5_000_000u64),
        header: DedupHeaderName::from_str("event").unwrap(),
    };
    assert_eq!(policy.window_micros(), 5_000_000);
    assert_eq!(policy.window.as_micros(), 5_000_000);
    assert_eq!(MAX_DEDUP_WINDOW_MICROS, 86_400_000_000);
}
