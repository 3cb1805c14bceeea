use message_dedup::decimal::push_decimal;
use message_dedup::wire::{push_le, read_le_u32};

#[test]
fn numbers_read_as_rust_writes_them() {
    for value in [0u64, 7, 9, 10, 99, 100, 1_048_576, 86_400_000_000, u64::MAX] {
        let mut text = "=".to_string();
        push_decimal(&mut text, value);
        assert_eq!(text, format!("={value}"));
    }
}

#[test]
fn numbers_are_written_with_the_low_byte_first() {
    let mut bytes = vec![9];
    push_le(&mut bytes, 0x0102_0304, 4);
    assert_eq!(bytes, vec![9, 4, 3, 2, 1]);
    assert_eq!(read_le_u32(&bytes, 1), 0x0102_0304);
    push_le(&mut bytes, u128::MAX, 16);
    assert_eq!(bytes.len(), 21);
}
