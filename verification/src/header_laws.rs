//! What a header block spells, and which key it gives, byte by byte.

use vstd::prelude::*;

use crate::hash;
use crate::key;
use crate::user_headers;
use crate::user_headers::{Field, HeaderEntry};
use crate::wire;

verus! {

/// Four bytes are read least significant first.
proof fn lemma_four_bytes(bytes: Seq<u8>)
    requires
        bytes.len() == 4,
    ensures
        wire::le_value(bytes) == bytes[0] + 256 * bytes[1] + 65_536 * bytes[2] + 16_777_216
            * bytes[3],
{
    reveal_with_fuel(wire::le_value, 5);
    assert(bytes.drop_first()[0] == bytes[1]);
    assert(bytes.drop_first().drop_first()[0] == bytes[2]);
    assert(bytes.drop_first().drop_first().drop_first()[0] == bytes[3]);
}

/// What a block holds, one entry at a time. An empty block holds no header. A
/// block that is not empty starts with a key field and a value field, each a
/// kind other than zero, four bytes of length, the least significant first,
/// and that many bytes; the key is at most 255 bytes long. Without both it is
/// malformed; with both it holds that entry and what the bytes after it hold.
pub proof fn lemma_block_meaning(block: Seq<u8>)
    ensures
        block.len() == 0 ==> user_headers::decode(block) == Some(Seq::<HeaderEntry>::empty()),
        block.len() > 0 ==> {
            let key_len = block[1] + 256 * block[2] + 65_536 * block[3] + 16_777_216 * block[4];
            let at = 5 + key_len;
            let value_len = block[at + 1] + 256 * block[at + 2] + 65_536 * block[at + 3]
                + 16_777_216 * block[at + 4];
            let end = at + 5 + value_len;
            let whole = block.len() >= 5 && block[0] != 0 && key_len <= 255 && block.len() >= at + 5
                && block[at] != 0 && block.len() >= end;
            &&& !whole ==> user_headers::decode(block) is None
            &&& whole ==> match user_headers::decode(block.skip(end)) {
                None => user_headers::decode(block) is None,
                Some(rest) => {
                    &&& user_headers::decode(block) is Some
                    &&& user_headers::decode(block)->0.len() == 1 + rest.len()
                    &&& user_headers::decode(block)->0[0].key.kind == block[0]
                    &&& user_headers::decode(block)->0[0].key.content == block.subrange(5, at)
                    &&& user_headers::decode(block)->0[0].value.kind == block[at]
                    &&& user_headers::decode(block)->0[0].value.content == block.subrange(
                        at + 5,
                        end,
                    )
                    &&& user_headers::decode(block)->0.skip(1) == rest
                },
            }
        },
{
    if block.len() >= 5 {
        lemma_four_bytes(block.subrange(1, 5));
        let key_len = block[1] + 256 * block[2] + 65_536 * block[3] + 16_777_216 * block[4];
        let at = 5 + key_len;
        if block.len() >= at + 5 {
            let tail = user_headers::after_field(block);
            assert(tail =~= block.skip(at));
            lemma_four_bytes(tail.subrange(1, 5));
            assert(tail[1] == block[at + 1]);
            assert(tail[2] == block[at + 2]);
            assert(tail[3] == block[at + 3]);
            assert(tail[4] == block[at + 4]);
            let value_len = block[at + 1] + 256 * block[at + 2] + 65_536 * block[at + 3]
                + 16_777_216 * block[at + 4];
            let end = at + 5 + value_len;
            if block.len() >= end {
                assert(user_headers::after_field(tail) =~= block.skip(end));
                assert(user_headers::first_field(tail).content =~= block.subrange(at + 5, end));
                if let Some(rest) = user_headers::decode(block.skip(end)) {
                    let entry = HeaderEntry {
                        key: user_headers::first_field(block),
                        value: user_headers::first_field(tail),
                    };
                    assert((seq![entry] + rest).skip(1) =~= rest);
                }
            }
        }
    }
}

/// Writing a header in front of a block and reading the block gives that
/// header, whole, and then what was read before: the fields are spelled as a
/// kind, four length bytes with the least significant first, and the content.
pub proof fn lemma_written_header_is_read_back(
    key_kind: u8,
    key_length: Seq<u8>,
    key_content: Seq<u8>,
    value_kind: u8,
    value_length: Seq<u8>,
    value_content: Seq<u8>,
    rest: Seq<u8>,
)
    requires
        key_kind != 0,
        value_kind != 0,
        key_content.len() <= 255,
        key_length.len() == 4,
        value_length.len() == 4,
        key_content.len() == key_length[0] + 256 * key_length[1] + 65_536 * key_length[2]
            + 16_777_216 * key_length[3],
        value_content.len() == value_length[0] + 256 * value_length[1] + 65_536 * value_length[2]
            + 16_777_216 * value_length[3],
        user_headers::decode(rest) is Some,
    ensures
        user_headers::decode(
            seq![key_kind] + key_length + key_content + seq![value_kind] + value_length
                + value_content + rest,
        ) == Some(
            seq![
                HeaderEntry {
                    key: Field { kind: key_kind, content: key_content },
                    value: Field { kind: value_kind, content: value_content },
                },
            ] + user_headers::decode(rest)->0,
        ),
{
    let block = seq![key_kind] + key_length + key_content + seq![value_kind] + value_length
        + value_content + rest;
    lemma_block_meaning(block);
    let at: int = 5 + key_content.len() as int;
    let end: int = at + 5 + value_content.len();
    assert(block[0] == key_kind);
    assert(block[1] == key_length[0]);
    assert(block[2] == key_length[1]);
    assert(block[3] == key_length[2]);
    assert(block[4] == key_length[3]);
    assert(block[at] == value_kind);
    assert(block[at + 1] == value_length[0]);
    assert(block[at + 2] == value_length[1]);
    assert(block[at + 3] == value_length[2]);
    assert(block[at + 4] == value_length[3]);
    assert(block.skip(end) =~= rest);
    assert(block.subrange(5, at) =~= key_content);
    assert(block.subrange(at + 5, end) =~= value_content);
    let entries = user_headers::decode(block)->0;
    let entry = HeaderEntry {
        key: Field { kind: key_kind, content: key_content },
        value: Field { kind: value_kind, content: value_content },
    };
    assert(entries[0] == entry);
    assert(entries =~= seq![entries[0]] + entries.skip(1));
}

/// The key of a message is the digest of the kind of its dedup header's value
/// followed by every byte of that value. The first header of the name counts,
/// whatever the kind of its key.
pub proof fn lemma_key_is_the_digest_of_the_whole_value(
    block: Seq<u8>,
    name: Seq<u8>,
    entries: Seq<HeaderEntry>,
    i: int,
)
    requires
        user_headers::decode(block) == Some(entries),
        0 <= i < entries.len(),
        entries[i].key.content == name,
        forall|j: int| 0 <= j < i ==> (#[trigger] entries[j]).key.content != name,
    ensures
        key::key_of(block, name) == Some(
            hash::xxh3_128_digest(seq![entries[i].value.kind] + entries[i].value.content),
        ),
{
    user_headers::lemma_first_named(entries, name);
    let found = user_headers::first_named(entries, name);
    if let Some(entry) = found {
        let m = choose|m: int|
            #![trigger entries[m]]
            {
                &&& 0 <= m < entries.len()
                &&& entries[m] == entry
                &&& entry.key.content == name
                &&& forall|j: int| 0 <= j < m ==> (#[trigger] entries[j]).key.content != name
            };
        if m < i {
            assert(entries[m].key.content != name);
        }
        if i < m {
            assert(entries[i].key.content != name);
        }
        assert(m == i);
    }
}

/// A message has a key if and only if its block is well formed and one of the
/// headers has the name.
pub proof fn lemma_key_iff_the_header_is_carried(block: Seq<u8>, name: Seq<u8>)
    ensures
        key::key_of(block, name) is Some <==> user_headers::decode(block) is Some && exists|i: int|
            0 <= i < user_headers::decode(block)->0.len() && (#[trigger] user_headers::decode(
                block,
            )->0[i]).key.content == name,
{
    if let Some(entries) = user_headers::decode(block) {
        user_headers::lemma_first_named(entries, name);
    }
}

/// Messages whose dedup headers differ, in the kind of the value or in any
/// byte of it, have different keys, as long as the hash tells the two
/// identities apart.
pub proof fn lemma_distinct_values_have_distinct_keys(
    left: Seq<u8>,
    right: Seq<u8>,
    name: Seq<u8>,
    left_entries: Seq<HeaderEntry>,
    right_entries: Seq<HeaderEntry>,
    i: int,
    j: int,
)
    requires
        user_headers::decode(left) == Some(left_entries),
        user_headers::decode(right) == Some(right_entries),
        0 <= i < left_entries.len(),
        0 <= j < right_entries.len(),
        left_entries[i].key.content == name,
        right_entries[j].key.content == name,
        forall|m: int| 0 <= m < i ==> (#[trigger] left_entries[m]).key.content != name,
        forall|m: int| 0 <= m < j ==> (#[trigger] right_entries[m]).key.content != name,
        left_entries[i].value.kind != right_entries[j].value.kind || left_entries[i].value.content
            != right_entries[j].value.content,
        hash::xxh3_128_digest(seq![left_entries[i].value.kind] + left_entries[i].value.content)
            == hash::xxh3_128_digest(
            seq![right_entries[j].value.kind] + right_entries[j].value.content,
        ) ==> seq![left_entries[i].value.kind] + left_entries[i].value.content == seq![
            right_entries[j].value.kind,
        ] + right_entries[j].value.content,
    ensures
        key::key_of(left, name) is Some,
        key::key_of(right, name) is Some,
        key::key_of(left, name) != key::key_of(right, name),
{
    lemma_key_is_the_digest_of_the_whole_value(left, name, left_entries, i);
    lemma_key_is_the_digest_of_the_whole_value(right, name, right_entries, j);
    let a = seq![left_entries[i].value.kind] + left_entries[i].value.content;
    let b = seq![right_entries[j].value.kind] + right_entries[j].value.content;
    if a == b {
        assert(a[0] == b[0]);
        assert(left_entries[i].value.content =~= a.skip(1));
        assert(right_entries[j].value.content =~= b.skip(1));
    }
}

} // verus!
