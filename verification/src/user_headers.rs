//! The user-header block of a message.
//!
//! A block is a run of entries, each a key field followed by a value field. A
//! field is a kind byte, the length of its content as a little-endian `u32`,
//! and the content. A kind is never zero, a key is at most
//! [`MAX_HEADER_KEY_LENGTH`] bytes long, and no byte is left over.

use vstd::prelude::*;

use crate::wire;

verus! {

/// Longest key of a user header.
pub const MAX_HEADER_KEY_LENGTH: usize = 255;

/// Bytes of a field before its content: the kind and the length.
pub const FIELD_PREFIX_LENGTH: usize = 5;

/// A typed run of bytes.
pub struct Field {
    pub kind: u8,
    pub content: Seq<u8>,
}

/// One user header.
pub struct HeaderEntry {
    pub key: Field,
    pub value: Field,
}

/// The length that the field at the start of `block` declares.
pub open spec fn declared_length(block: Seq<u8>) -> nat {
    wire::le_value(block.subrange(1, FIELD_PREFIX_LENGTH as int))
}

/// Whether `block` starts with a whole field.
pub open spec fn starts_with_field(block: Seq<u8>) -> bool {
    &&& block.len() >= FIELD_PREFIX_LENGTH
    &&& block[0] != 0
    &&& block.len() >= FIELD_PREFIX_LENGTH + declared_length(block)
}

/// The field that `block` starts with.
pub open spec fn first_field(block: Seq<u8>) -> Field {
    Field {
        kind: block[0],
        content: block.subrange(
            FIELD_PREFIX_LENGTH as int,
            FIELD_PREFIX_LENGTH + declared_length(block),
        ),
    }
}

/// What follows the field that `block` starts with.
pub open spec fn after_field(block: Seq<u8>) -> Seq<u8> {
    block.skip(FIELD_PREFIX_LENGTH + declared_length(block))
}

/// Whether `block` starts with a whole entry.
pub open spec fn starts_with_entry(block: Seq<u8>) -> bool {
    &&& starts_with_field(block)
    &&& declared_length(block) <= MAX_HEADER_KEY_LENGTH
    &&& starts_with_field(after_field(block))
}

/// The headers of `block` in order, or `None` when it is malformed.
pub open spec fn decode(block: Seq<u8>) -> Option<Seq<HeaderEntry>>
    decreases block.len(),
{
    if block.len() == 0 {
        Some(Seq::empty())
    } else if !starts_with_entry(block) {
        None
    } else {
        let entry = HeaderEntry {
            key: first_field(block),
            value: first_field(after_field(block)),
        };
        match decode(after_field(after_field(block))) {
            Some(rest) => Some(seq![entry] + rest),
            None => None,
        }
    }
}

/// The first entry whose key is spelled `name`, whatever the kind of the key.
pub open spec fn first_named(entries: Seq<HeaderEntry>, name: Seq<u8>) -> Option<HeaderEntry>
    decreases entries.len(),
{
    if entries.len() == 0 {
        None
    } else if entries[0].key.content == name {
        Some(entries[0])
    } else {
        first_named(entries.drop_first(), name)
    }
}

/// What identifies a message that carries the header `name`: the kind of the
/// header's value, then its bytes. `None` when the block is malformed or does
/// not carry the header.
pub open spec fn identity(block: Seq<u8>, name: Seq<u8>) -> Option<Seq<u8>> {
    match decode(block) {
        Some(entries) => match first_named(entries, name) {
            Some(entry) => Some(seq![entry.value.kind] + entry.value.content),
            None => None,
        },
        None => None,
    }
}

/// The entry found is the first of its name.
pub proof fn lemma_first_named(entries: Seq<HeaderEntry>, name: Seq<u8>)
    ensures
        match first_named(entries, name) {
            Some(entry) => exists|i: int|
                #![trigger entries[i]]
                {
                    &&& 0 <= i < entries.len()
                    &&& entries[i] == entry
                    &&& entry.key.content == name
                    &&& forall|j: int| 0 <= j < i ==> (#[trigger] entries[j]).key.content != name
                },
            None => forall|i: int|
                0 <= i < entries.len() ==> (#[trigger] entries[i]).key.content != name,
        },
    decreases entries.len(),
{
    if entries.len() > 0 {
        let rest = entries.drop_first();
        lemma_first_named(rest, name);
        if entries[0].key.content != name {
            match first_named(rest, name) {
                Some(entry) => {
                    let i = choose|i: int|
                        #![trigger rest[i]]
                        {
                            &&& 0 <= i < rest.len()
                            &&& rest[i] == entry
                            &&& entry.key.content == name
                            &&& forall|j: int|
                                0 <= j < i ==> (#[trigger] rest[j]).key.content != name
                        };
                    assert(entries[i + 1] == entry);
                    assert forall|j: int| 0 <= j < i + 1 implies (
                    #[trigger] entries[j]).key.content != name by {
                        if j > 0 {
                            assert(rest[j - 1] == entries[j]);
                        }
                    }
                },
                None => {
                    assert forall|i: int| 0 <= i < entries.len() implies (
                    #[trigger] entries[i]).key.content != name by {
                        if i > 0 {
                            assert(rest[i - 1] == entries[i]);
                        }
                    }
                },
            }
        }
    }
}

/// Where the content of the field at `at` ends, if a whole field is there.
fn field_end(block: &[u8], at: usize) -> (end: Option<usize>)
    requires
        at <= block@.len(),
    ensures
        end is Some <==> starts_with_field(block@.skip(at as int)),
        end matches Some(to) ==> {
            &&& to == at + FIELD_PREFIX_LENGTH + declared_length(block@.skip(at as int))
            &&& to <= block@.len()
        },
{
    let ghost rest = block@.skip(at as int);
    if block.len() - at < FIELD_PREFIX_LENGTH {
        return None;
    }
    if block[at] == 0 {
        return None;
    }
    let length = wire::read_le_u32(block, at + 1);
    assert(rest.subrange(1, 5) =~= block@.subrange(at + 1, at + 5));
    let left = block.len() - at - FIELD_PREFIX_LENGTH;
    if (left as u64) < (length as u64) {
        return None;
    }
    Some(at + FIELD_PREFIX_LENGTH + length as usize)
}

/// Where the entry at `at` has the end of its key and the end of its value,
/// if a whole entry is there.
fn entry_ends(block: &[u8], at: usize) -> (ends: Option<(usize, usize)>)
    requires
        at <= block@.len(),
    ensures
        ends is Some <==> starts_with_entry(block@.skip(at as int)),
        ends matches Some((key_end, value_end)) ==> {
            let rest = block@.skip(at as int);
            &&& at + FIELD_PREFIX_LENGTH <= key_end
            &&& key_end + FIELD_PREFIX_LENGTH <= value_end <= block@.len()
            &&& first_field(rest).content == block@.subrange(
                at + FIELD_PREFIX_LENGTH,
                key_end as int,
            )
            &&& after_field(rest) == block@.skip(key_end as int)
            &&& first_field(after_field(rest)).kind == block@[key_end as int]
            &&& first_field(after_field(rest)).content == block@.subrange(
                key_end + FIELD_PREFIX_LENGTH,
                value_end as int,
            )
            &&& after_field(after_field(rest)) == block@.skip(value_end as int)
        },
{
    let ghost rest = block@.skip(at as int);
    match field_end(block, at) {
        None => None,
        Some(key_end) => {
            proof {
                assert(after_field(rest) =~= block@.skip(key_end as int));
                assert(first_field(rest).content =~= block@.subrange(
                    at + FIELD_PREFIX_LENGTH,
                    key_end as int,
                ));
            }
            if key_end - at - FIELD_PREFIX_LENGTH > MAX_HEADER_KEY_LENGTH {
                return None;
            }
            match field_end(block, key_end) {
                None => None,
                Some(value_end) => {
                    proof {
                        let tail = after_field(rest);
                        assert(after_field(tail) =~= block@.skip(value_end as int));
                        assert(first_field(tail).content =~= block@.subrange(
                            key_end + FIELD_PREFIX_LENGTH,
                            value_end as int,
                        ));
                    }
                    Some((key_end, value_end))
                },
            }
        },
    }
}

/// Whether `block` is a well-formed run of user headers.
pub fn validate_user_headers(block: &[u8]) -> (valid: bool)
    ensures
        valid == (decode(block@) is Some),
{
    let mut at: usize = 0;
    assert(block@.skip(0) =~= block@);
    while at < block.len()
        invariant
            at <= block@.len(),
            decode(block@) is Some <==> decode(block@.skip(at as int)) is Some,
        decreases block@.len() - at,
    {
        match entry_ends(block, at) {
            None => {
                return false;
            },
            Some((key_end, value_end)) => {
                at = value_end;
            },
        }
    }
    assert(block@.skip(at as int).len() == 0);
    true
}

/// Whether the bytes of `block` from `from` up to `to` spell `name`.
fn spells(block: &[u8], from: usize, to: usize, name: &[u8]) -> (same: bool)
    requires
        from <= to <= block@.len(),
    ensures
        same == (block@.subrange(from as int, to as int) == name@),
{
    let ghost part = block@.subrange(from as int, to as int);
    if to - from != name.len() {
        assert(part.len() != name@.len());
        return false;
    }
    let mut i: usize = 0;
    while i < name.len()
        invariant
            i <= name@.len(),
            from + name@.len() == to,
            to <= block@.len(),
            part == block@.subrange(from as int, to as int),
            forall|j: int| 0 <= j < i ==> part[j] == name@[j],
        decreases name@.len() - i,
    {
        if block[from + i] != name[i] {
            assert(part[i as int] != name@[i as int]);
            return false;
        }
        i += 1;
    }
    assert(part =~= name@);
    true
}

/// What identifies a message by the header `name` of its user-header block:
/// the kind of the header's value, then its bytes.
///
/// `None` when the block is malformed or does not carry the header. The block
/// is validated whole before it is searched.
pub fn header_identity(block: &[u8], name: &[u8]) -> (found: Option<Vec<u8>>)
    ensures
        found is Some <==> identity(block@, name@) is Some,
        found matches Some(bytes) ==> Some(bytes@) == identity(block@, name@),
        found is Some <==> decode(block@) is Some && exists|i: int|
            0 <= i < decode(block@)->0.len() && (#[trigger] decode(block@)->0[i]).key.content
                == name@,
        found matches Some(bytes) ==> exists|i: int|
            {
                &&& 0 <= i < decode(block@)->0.len()
                &&& (#[trigger] decode(block@)->0[i]).key.content == name@
                &&& forall|j: int|
                    0 <= j < i ==> (#[trigger] decode(block@)->0[j]).key.content != name@
                &&& bytes@ == seq![decode(block@)->0[i].value.kind] + decode(block@)->0[i].value.content
            },
{
    proof {
        if let Some(entries) = decode(block@) {
            lemma_first_named(entries, name@);
        }
    }
    if !validate_user_headers(block) {
        return None;
    }
    let mut at: usize = 0;
    assert(block@.skip(0) =~= block@);
    while at < block.len()
        invariant
            at <= block@.len(),
            decode(block@) is Some,
            decode(block@.skip(at as int)) is Some,
            first_named(decode(block@)->0, name@) == first_named(
                decode(block@.skip(at as int))->0,
                name@,
            ),
        decreases block@.len() - at,
    {
        let ghost rest = block@.skip(at as int);
        match entry_ends(block, at) {
            None => {
                return None;
            },
            Some((key_end, value_end)) => {
                proof {
                    let entries = decode(rest)->0;
                    assert(entries.drop_first() =~= decode(block@.skip(value_end as int))->0);
                    assert(entries[0].key == first_field(rest));
                    assert(entries[0].value == first_field(after_field(rest)));
                }
                if spells(block, at + FIELD_PREFIX_LENGTH, key_end, name) {
                    let mut bytes: Vec<u8> = Vec::new();
                    bytes.push(block[key_end]);
                    let mut i: usize = key_end + FIELD_PREFIX_LENGTH;
                    while i < value_end
                        invariant
                            key_end + FIELD_PREFIX_LENGTH <= i <= value_end <= block@.len(),
                            bytes@ == seq![block@[key_end as int]] + block@.subrange(
                                key_end + FIELD_PREFIX_LENGTH,
                                i as int,
                            ),
                        decreases value_end - i,
                    {
                        bytes.push(block[i]);
                        i += 1;
                        assert(bytes@ =~= seq![block@[key_end as int]] + block@.subrange(
                            key_end + FIELD_PREFIX_LENGTH,
                            i as int,
                        ));
                    }
                    proof {
                        lemma_first_named(decode(block@)->0, name@);
                    }
                    return Some(bytes);
                }
                at = value_end;
            },
        }
    }
    assert(block@.skip(at as int).len() == 0);
    None
}

} // verus!
