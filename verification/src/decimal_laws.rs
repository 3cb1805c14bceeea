//! What numbers in decimal read as.

use vstd::prelude::*;

use crate::decimal;

verus! {

/// A number in decimal is written in the digits 0 to 9, reads back as the
/// number with each digit worth ten times the next, and starts with a zero only
/// where it is zero.
pub proof fn lemma_decimal_reads_back(value: nat)
    ensures
        decimal::decimal(value).len() >= 1,
        forall|i: int|
            0 <= i < decimal::decimal(value).len() ==> '0' <= #[trigger] decimal::decimal(value)[i]
                && decimal::decimal(value)[i] <= '9',
        decimal::decimal(value).fold_left(
            0int,
            |read: int, digit: char| 10 * read + (digit as int - '0' as int),
        ) == value,
        decimal::decimal(value)[0] == '0' <==> value == 0,
        decimal::decimal(value).len() == 1 <==> value < 10,
    decreases value,
{
    let read = |read: int, digit: char| 10 * read + (digit as int - '0' as int);
    let text = decimal::decimal(value);
    reveal_with_fuel(Seq::fold_left, 2);
    if value < 10 {
        assert(text.drop_last() =~= Seq::empty());
        assert(text.drop_last().fold_left(0int, read) == 0);
    } else {
        let front = decimal::decimal(value / 10);
        lemma_decimal_reads_back(value / 10);
        assert(text.drop_last() =~= front);
        assert forall|i: int| 0 <= i < text.len() implies '0' <= #[trigger] text[i] && text[i]
            <= '9' by {
            if i < front.len() {
                assert(text[i] == front[i]);
            }
        }
        assert(text[0] == front[0]);
    }
}

} // verus!
