use std::str::FromStr;

use message_dedup::key::{dedup_key, DedupKey};
use message_dedup::policy::DedupHeaderName;
use message_dedup::user_headers::{header_identity, validate_user_headers};
use twox_hash::XxHash3_128;

const STRING_KIND: u8 = 2;
const RAW_KIND: u8 = 1;

fn push_field(block: &mut Vec<u8>, kind: u8, content: &[u8]) {
    block.push(kind);
    block.extend_from_slice(&(content.len() as u32).to_le_bytes());
    block.extend_from_slice(content);
}

fn headers(entries: &[(&str, u8, &[u8])]) -> Vec<u8> {
    let mut block = Vec::new();
    for (name, kind, value) in entries {
        push_field(&mut block, STRING_KIND, name.as_bytes());
        push_field(&mut block, *kind, value);
    }
    block
}

#[test]
fn key_is_read_from_the_configured_header_only() {
    let block = headers(&[
        ("trace", STRING_KIND, b"t-1"),
        ("dedup-key", STRING_KIND, b"evt-1"),
    ]);
    let name = DedupHeaderName::from_str("dedup-key").unwrap();
    let found = dedup_key(&block, &name).expect("header present");
    let other = headers(&[("dedup-key", STRING_KIND, b"evt-2")]);
    assert_ne!(Some(found), dedup_key(&other, &name));
    // Same value under another header name is a different policy's key.
    let trace = DedupHeaderName::from_str("trace").unwrap();
    assert_ne!(dedup_key(&block, &trace), Some(found));
}

#[test]
fn same_value_is_the_same_key_across_batches_and_header_order() {
    let name = DedupHeaderName::from_str("dedup-key").unwrap();
    let first = headers(&[("a", STRING_KIND, b"x"), ("dedup-key", STRING_KIND, b"evt")]);
    let second = headers(&[("dedup-key", STRING_KIND, b"evt"), ("b", STRING_KIND, b"y")]);
    assert_eq!(dedup_key(&first, &name), dedup_key(&second, &name));
}

#[test]
fn value_kind_is_part_of_the_identity() {
    // `evt` as a string and as raw bytes are different typed values; a
    // producer that switches encodings mid-stream is not deduplicated
    // against itself, which is documented rather than guessed at.
    let name = DedupHeaderName::from_str("dedup-key").unwrap();
    let as_string = headers(&[("dedup-key", STRING_KIND, b"evt")]);
    let as_raw = headers(&[("dedup-key", RAW_KIND, b"evt")]);
    assert_ne!(dedup_key(&as_string, &name), dedup_key(&as_raw, &name));
}

#[test]
fn missing_empty_or_malformed_headers_yield_no_key_and_never_panic() {
    let name = DedupHeaderName::from_str("dedup-key").unwrap();
    assert_eq!(dedup_key(&[], &name), None);
    assert_eq!(
        dedup_key(&headers(&[("other", STRING_KIND, b"v")]), &name),
        None
    );
    // Truncated, zero kind, overlong length, odd TLV count.
    let mut garbage: Vec<Vec<u8>> = vec![vec![2, 9, 0, 0, 0, b'd'], vec![0; 12]];
    let mut odd = headers(&[("dedup-key", STRING_KIND, b"evt")]);
    odd.truncate(odd.len() - 1);
    garbage.push(odd);
    garbage.push(vec![2, 0xff, 0xff, 0xff, 0x7f]);
    for block in garbage {
        assert_eq!(dedup_key(&block, &name), None, "{block:?}");
    }
}

#[test]
fn a_key_is_the_hash_of_the_value_kind_and_bytes() {
    let name = DedupHeaderName::from_str("dedup-key").unwrap();
    let block = headers(&[("dedup-key", STRING_KIND, b"evt")]);
    let key = dedup_key(&block, &name).unwrap();
    assert_eq!(key.as_raw(), XxHash3_128::oneshot(&[2, b'e', b'v', b't']));
    assert_eq!(DedupKey::from_raw(key.as_raw()), key);
    assert_eq!(
        header_identity(&block, b"dedup-key"),
        Some(vec![2, b'e', b'v', b't'])
    );
}

#[test]
fn the_kind_of_the_header_key_does_not_matter() {
    let name = DedupHeaderName::from_str("dedup-key").unwrap();
    let as_string = headers(&[("dedup-key", STRING_KIND, b"evt")]);
    let mut as_raw = Vec::new();
    push_field(&mut as_raw, RAW_KIND, b"dedup-key");
    push_field(&mut as_raw, STRING_KIND, b"evt");
    assert_eq!(dedup_key(&as_string, &name), dedup_key(&as_raw, &name));
}

#[test]
fn the_first_header_of_the_name_decides() {
    let name = DedupHeaderName::from_str("dedup-key").unwrap();
    let twice = headers(&[
        ("dedup-key", STRING_KIND, b"first"),
        ("dedup-key", STRING_KIND, b"second"),
    ]);
    let once = headers(&[("dedup-key", STRING_KIND, b"first")]);
    assert_eq!(dedup_key(&twice, &name), dedup_key(&once, &name));
}

#[test]
fn a_block_is_well_formed_as_a_whole_or_not_at_all() {
    assert!(validate_user_headers(&[]));
    let good = headers(&[("dedup-key", STRING_KIND, b"evt")]);
    assert!(validate_user_headers(&good));
    // A good entry before a bad one does not save the block.
    let mut bad = good.clone();
    bad.extend_from_slice(&[0, 0, 0, 0, 0]);
    assert!(!validate_user_headers(&bad));
    let name = DedupHeaderName::from_str("dedup-key").unwrap();
    assert_eq!(dedup_key(&bad, &name), None);
    // A key without a value.
    let mut alone = Vec::new();
    push_field(&mut alone, STRING_KIND, b"dedup-key");
    assert!(!validate_user_headers(&alone));
    // A key of 255 bytes fits, one of 256 does not.
    let mut longest = Vec::new();
    push_field(&mut longest, STRING_KIND, &[b'k'; 255]);
    push_field(&mut longest, STRING_KIND, b"v");
    assert!(validate_user_headers(&longest));
    let mut too_long = Vec::new();
    push_field(&mut too_long, STRING_KIND, &[b'k'; 256]);
    push_field(&mut too_long, STRING_KIND, b"v");
    assert!(!validate_user_headers(&too_long));
}
