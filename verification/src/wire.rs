//! Little-endian integers.

use vstd::prelude::*;

verus! {

/// The `width` lowest bytes of `value`, least significant first.
pub open spec fn le_bytes(value: nat, width: nat) -> Seq<u8>
    decreases width,
{
    if width == 0 {
        Seq::empty()
    } else {
        seq![(value % 256) as u8] + le_bytes(value / 256, (width - 1) as nat)
    }
}

/// The integer whose bytes, least significant first, are `bytes`.
pub open spec fn le_value(bytes: Seq<u8>) -> nat
    decreases bytes.len(),
{
    if bytes.len() == 0 {
        0
    } else {
        bytes[0] as nat + 256 * le_value(bytes.drop_first())
    }
}

/// Little-endian bytes read back as the integer they were made from, as far
/// as they hold it.
pub proof fn lemma_le_bytes_round_trip(value: nat, width: nat)
    ensures
        le_bytes(value, width).len() == width,
        value < vstd::arithmetic::power::pow(256, width) ==> le_value(le_bytes(value, width))
            == value,
    decreases width,
{
    vstd::arithmetic::power::lemma_pow0(256);
    if width > 0 {
        let rest = (width - 1) as nat;
        lemma_le_bytes_round_trip(value / 256, rest);
        vstd::arithmetic::power::lemma_pow_adds(256, 1, rest);
        vstd::arithmetic::power::lemma_pow1(256);
        assert(le_bytes(value, width).drop_first() =~= le_bytes(value / 256, rest));
        if value < vstd::arithmetic::power::pow(256, width) {
            let tail = vstd::arithmetic::power::pow(256, rest);
            assert(value / 256 < tail) by (nonlinear_arith)
                requires
                    value < 256 * tail,
            ;
            assert(le_value(le_bytes(value, width)) == (value % 256) + 256 * (value / 256));
        }
    }
}

/// Byte `i` of a little-endian integer is its `i`th digit to the base 256.
pub proof fn lemma_le_bytes_meaning(value: nat, width: nat)
    ensures
        le_bytes(value, width).len() == width,
        forall|i: int|
            0 <= i < width ==> #[trigger] le_bytes(value, width)[i] as int == (value as int
                / vstd::arithmetic::power::pow(256, i as nat)) % 256,
    decreases width,
{
    if width > 0 {
        lemma_le_bytes_meaning(value / 256, (width - 1) as nat);
        let bytes = le_bytes(value, width);
        let rest = le_bytes(value / 256, (width - 1) as nat);
        assert forall|i: int| 0 <= i < width implies #[trigger] bytes[i] as int == (value as int
            / vstd::arithmetic::power::pow(256, i as nat)) % 256 by {
            if i == 0 {
                vstd::arithmetic::power::lemma_pow0(256);
            } else {
                assert(bytes[i] == rest[i - 1]);
                let low = vstd::arithmetic::power::pow(256, (i - 1) as nat);
                vstd::arithmetic::power::lemma_pow_positive(256, (i - 1) as nat);
                vstd::arithmetic::power::lemma_pow_adds(256, 1, (i - 1) as nat);
                vstd::arithmetic::power::lemma_pow1(256);
                vstd::arithmetic::div_mod::lemma_div_denominator(value as int, 256, low);
            }
        }
    }
}

/// Append the `width` lowest bytes of `value`, least significant first.
pub fn push_le(bytes: &mut Vec<u8>, value: u128, width: usize)
    ensures
        final(bytes)@ == old(bytes)@ + le_bytes(value as nat, width as nat),
        final(bytes)@.len() == old(bytes)@.len() + width,
        forall|i: int|
            0 <= i < old(bytes)@.len() ==> #[trigger] final(bytes)@[i] == old(bytes)@[i],
        forall|i: int|
            old(bytes)@.len() <= i < old(bytes)@.len() + width ==> #[trigger] final(bytes)@[i] as int
                == (value as int / vstd::arithmetic::power::pow(
                256,
                (i - old(bytes)@.len()) as nat,
            )) % 256,
{
    proof {
        lemma_le_bytes_meaning(value as nat, width as nat);
    }
    let mut rest: u128 = value;
    let mut written: usize = 0;
    assert(bytes@ + le_bytes(value as nat, width as nat) =~= old(bytes)@ + le_bytes(
        value as nat,
        width as nat,
    ));
    while written < width
        invariant
            written <= width,
            bytes@ + le_bytes(rest as nat, (width - written) as nat) == old(bytes)@ + le_bytes(
                value as nat,
                width as nat,
            ),
        decreases width - written,
    {
        let ghost before = bytes@;
        let ghost left = (width - written) as nat;
        assert(le_bytes(rest as nat, left) == seq![(rest as nat % 256) as u8] + le_bytes(
            rest as nat / 256,
            (left - 1) as nat,
        ));
        bytes.push((rest % 256) as u8);
        assert(bytes@ + le_bytes(rest as nat / 256, (left - 1) as nat) =~= before + le_bytes(
            rest as nat,
            left,
        ));
        rest = rest / 256;
        written += 1;
    }
    assert(bytes@ + le_bytes(rest as nat, 0) =~= bytes@);
}

/// The `u32` held by the four bytes of `bytes` that start at `at`.
pub fn read_le_u32(bytes: &[u8], at: usize) -> (value: u32)
    requires
        at + 4 <= bytes@.len(),
    ensures
        value == le_value(bytes@.subrange(at as int, at + 4)),
        value == bytes@[at as int] + 256 * bytes@[at + 1] + 65_536 * bytes@[at + 2] + 16_777_216
            * bytes@[at + 3],
{
    let a: u32 = bytes[at] as u32;
    let b: u32 = bytes[at + 1] as u32;
    let c: u32 = bytes[at + 2] as u32;
    let d: u32 = bytes[at + 3] as u32;
    proof {
        let four = bytes@.subrange(at as int, at + 4);
        reveal_with_fuel(le_value, 5);
        assert(four.drop_first()[0] == bytes@[at + 1]);
        assert(four.drop_first().drop_first()[0] == bytes@[at + 2]);
        assert(four.drop_first().drop_first().drop_first()[0] == bytes@[at + 3]);
    }
    a + 256 * b + 65_536 * c + 16_777_216 * d
}

} // verus!
