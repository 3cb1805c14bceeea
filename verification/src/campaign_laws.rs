//! What a fuzz campaign does at each step, and with which odds.

use rand_xoshiro::Xoshiro256PlusPlus;
use vstd::prelude::*;

use crate::campaign;
use crate::campaign::{
    FaultAction, FaultMode, FaultView, MoveView, ProducersView, Turn,
};
use crate::decimal;
use crate::decimal_laws;

verus! {

// ---------------------------------------------------------------------------
// Faults
// ---------------------------------------------------------------------------

/// A group of three is crashed and restarted one at a time; a group of five
/// loses up to two for good.
pub proof fn lemma_group_sizes()
    ensures
        FaultMode::CrashRestart.group_size() == 3,
        FaultMode::CrashOnly.group_size() == 5,
{
}

/// A plan is valid exactly when every replica it counts as down is one of the
/// group, each once, two at most are down for good and only in a group of
/// five, and one is down for now only in a group of three.
pub proof fn lemma_valid_plan_meaning(plan: FaultView)
    ensures
        plan.valid() <==> {
            &&& plan.mode is CrashRestart ==> plan.crashed_for_good.len() == 0
            &&& plan.mode is CrashRestart ==> (plan.crashed_at matches Some((replica, at)) ==> replica
                < 3)
            &&& plan.mode is CrashOnly ==> plan.crashed_at is None
            &&& plan.mode is CrashOnly ==> plan.crashed_for_good.len() <= 2
            &&& plan.mode is CrashOnly ==> forall|i: int|
                0 <= i < plan.crashed_for_good.len() ==> #[trigger] plan.crashed_for_good[i] < 5
            &&& forall|i: int, j: int|
                0 <= i < j < plan.crashed_for_good.len() ==> plan.crashed_for_good[i]
                    != plan.crashed_for_good[j]
        },
{
    if forall|i: int, j: int|
        0 <= i < j < plan.crashed_for_good.len() ==> plan.crashed_for_good[i]
            != plan.crashed_for_good[j] {
        assert(plan.crashed_for_good.no_duplicates());
    }
}

/// A crash is due two times in a thousand while none of three is down, a
/// restart five times in a hundred once 400 steps have passed since the crash,
/// and a crash for good once in a thousand while fewer than two of five are
/// gone. Else no fault is due.
pub proof fn lemma_odds_meaning(plan: FaultView, step: usize)
    ensures
        match plan.mode {
            FaultMode::CrashRestart => match plan.crashed_at {
                None => plan.odds(step) matches Some(odds) && odds.under == 2 && odds.out_of
                    == 1_000,
                Some((replica, at)) => {
                    &&& step > at + 400 ==> (plan.odds(step) matches Some(odds) && odds.under == 5
                        && odds.out_of == 100)
                    &&& step <= at + 400 ==> plan.odds(step) is None
                },
            },
            FaultMode::CrashOnly => {
                &&& plan.crashed_for_good.len() < 2 ==> (plan.odds(step) matches Some(odds)
                    && odds.under == 1 && odds.out_of == 1_000)
                &&& plan.crashed_for_good.len() >= 2 ==> plan.odds(step) is None
            },
        },
{
}

/// A fault that strikes restarts the replica that is down for now; where none
/// is, it crashes the victim, unless that is gone for good already.
pub proof fn lemma_action_meaning(plan: FaultView, victim: u8)
    ensures
        match plan.crashed_at {
            Some((replica, at)) => plan.action(victim) == FaultAction::Restart(replica),
            None => {
                &&& plan.crashed_for_good.contains(victim) ==> plan.action(victim)
                    == FaultAction::Nothing
                &&& !plan.crashed_for_good.contains(victim) ==> plan.action(victim)
                    == FaultAction::Crash(victim)
            },
        },
{
}

/// A crash is noted with its step where it is for now, and at the end of the
/// list where it is for good; a restart clears what was down for now.
pub proof fn lemma_after_meaning(plan: FaultView, victim: u8, step: usize)
    ensures
        plan.after(FaultAction::Nothing, step) == plan,
        ({
            let restarted = plan.after(FaultAction::Restart(victim), step);
            &&& restarted.mode == plan.mode
            &&& restarted.crashed_at is None
            &&& restarted.crashed_for_good == plan.crashed_for_good
        }),
        ({
            let crashed = plan.after(FaultAction::Crash(victim), step);
            &&& crashed.mode == plan.mode
            &&& plan.mode is CrashRestart ==> crashed.crashed_at == Some((victim, step))
                && crashed.crashed_for_good == plan.crashed_for_good
            &&& plan.mode is CrashOnly ==> crashed.crashed_at == plan.crashed_at
                && crashed.crashed_for_good.len() == plan.crashed_for_good.len() + 1
                && crashed.crashed_for_good.last() == victim && crashed.crashed_for_good.drop_last()
                == plan.crashed_for_good
        }),
{
    assert(plan.crashed_for_good.push(victim).drop_last() =~= plan.crashed_for_good);
}

/// What the dice come to: nothing is rolled where no fault is due; a first roll
/// decides whether the fault happens; a second picks the victim among the
/// group, where no replica is to be restarted.
pub proof fn lemma_fault_rolls(plan: FaultView, dice: Xoshiro256PlusPlus, step: usize)
    ensures
        ({
            let (action, after) = plan.rolled(dice, step);
            match plan.odds(step) {
                None => action == FaultAction::Nothing && after == dice,
                Some(odds) => {
                    let (hit, rest) = campaign::drawn_below(dice, odds.out_of);
                    let size: u32 = if plan.mode is CrashRestart {
                        3
                    } else {
                        5
                    };
                    let (victim, last) = campaign::drawn_below(rest, size);
                    &&& hit >= odds.under ==> action == FaultAction::Nothing && after == rest
                    &&& hit < odds.under ==> (plan.crashed_at matches Some((down, at)) ==> after
                        == rest && action == FaultAction::Restart(down))
                    &&& hit < odds.under && plan.crashed_at is None ==> after == last && action
                        == plan.action(victim as u8)
                },
            }
        }),
{
}

// ---------------------------------------------------------------------------
// Producers
// ---------------------------------------------------------------------------

/// A producer without a request in flight is free; one with a request in
/// flight waits for 400 steps and retries after them.
pub proof fn lemma_turn_meaning(producers: ProducersView, client: u128, step: usize)
    ensures
        producers.turn(client, step) is Free <==> !producers.in_flight.contains_key(client),
        producers.turn(client, step) is Retries <==> producers.in_flight.contains_key(client)
            && step > producers.in_flight[client].sent_at + 400,
{
}

/// A producer that gives up has nothing in flight; nothing else changes.
pub proof fn lemma_give_up_meaning(producers: ProducersView, client: u128)
    ensures
        ({
            let after = producers.give_up(client);
            &&& !after.in_flight.contains_key(client)
            &&& forall|other: u128|
                other != client ==> (#[trigger] after.in_flight.contains_key(other)
                    <==> producers.in_flight.contains_key(other)) && (
                after.in_flight.contains_key(other) ==> after.in_flight[other]
                    == producers.in_flight[other])
            &&& after.acked == producers.acked
            &&& after.recent == producers.recent
            &&& after.successes == producers.successes
        }),
{
}

/// A request that is sent again keeps its number and keys and counts as sent at
/// the new step; nothing else changes.
pub proof fn lemma_sent_again_meaning(producers: ProducersView, client: u128, step: usize)
    ensures
        ({
            let after = producers.sent_again(client, step);
            &&& after.in_flight.contains_key(client)
            &&& after.in_flight[client].sent_at == step
            &&& after.in_flight[client].request == producers.in_flight[client].request
            &&& after.in_flight[client].keys == producers.in_flight[client].keys
            &&& forall|other: u128|
                other != client ==> (#[trigger] after.in_flight.contains_key(other)
                    <==> producers.in_flight.contains_key(other)) && (
                after.in_flight.contains_key(other) ==> after.in_flight[other]
                    == producers.in_flight[other])
            &&& after.acked == producers.acked
            &&& after.recent == producers.recent
            &&& after.successes == producers.successes
        }),
{
}

/// A batch that is sent is in flight with its keys, and is the newest of the 16
/// that are remembered at most; nothing else changes.
pub proof fn lemma_sent_meaning(
    producers: ProducersView,
    client: u128,
    request: u64,
    batch: Seq<Option<u32>>,
    step: usize,
)
    requires
        producers.recent.len() <= 16,
    ensures
        ({
            let after = producers.sent(client, request, batch, step);
            &&& after.in_flight.contains_key(client)
            &&& after.in_flight[client].sent_at == step
            &&& after.in_flight[client].request == request
            &&& after.in_flight[client].keys == campaign::batch_keys(batch)
            &&& forall|other: u128|
                other != client ==> (#[trigger] after.in_flight.contains_key(other)
                    <==> producers.in_flight.contains_key(other)) && (
                after.in_flight.contains_key(other) ==> after.in_flight[other]
                    == producers.in_flight[other])
            &&& after.acked == producers.acked
            &&& after.successes == producers.successes
            &&& 1 <= after.recent.len() <= 16
            &&& after.recent[after.recent.len() - 1] == batch
            &&& producers.recent.len() < 16 ==> after.recent.len() == producers.recent.len() + 1
                && after.recent.drop_last() == producers.recent
            &&& producers.recent.len() == 16 ==> after.recent.len() == 16
                && after.recent.drop_last() == producers.recent.skip(1)
        }),
{
    let after = producers.sent(client, request, batch, step);
    if producers.recent.len() < 16 {
        assert(after.recent.drop_last() =~= producers.recent);
    } else {
        assert(after.recent.drop_last() =~= producers.recent.skip(1));
    }
}

/// A reply to nothing in flight changes nothing. A success acknowledges the
/// keys of the request, in their order, and ends it; anything else makes the
/// request overdue.
pub proof fn lemma_replied_meaning(
    producers: ProducersView,
    client: u128,
    request: u64,
    status: u32,
)
    requires
        producers.successes < u64::MAX,
    ensures
        ({
            let after = producers.replied(client, request, status);
            let awaited = producers.in_flight.contains_key(client)
                && producers.in_flight[client].request == request;
            &&& !awaited ==> after == producers
            &&& awaited && status == 0 ==> {
                &&& !after.in_flight.contains_key(client)
                &&& after.acked == producers.acked + producers.in_flight[client].keys
                &&& after.successes == producers.successes + 1
            }
            &&& awaited && status != 0 ==> {
                &&& after.in_flight.contains_key(client)
                &&& after.in_flight[client].sent_at == 0
                &&& after.in_flight[client].request == request
                &&& after.in_flight[client].keys == producers.in_flight[client].keys
                &&& after.acked == producers.acked
                &&& after.successes == producers.successes
            }
            &&& forall|other: u128|
                other != client ==> (#[trigger] after.in_flight.contains_key(other)
                    <==> producers.in_flight.contains_key(other)) && (
                after.in_flight.contains_key(other) ==> after.in_flight[other]
                    == producers.in_flight[other])
            &&& after.recent == producers.recent
        }),
{
}

/// The keys of a batch are those of its keyed messages, in their order:
/// `places` are where they stand, increasing.
pub proof fn lemma_batch_keys_places(batch: Seq<Option<u32>>) -> (places: Seq<int>)
    ensures
        places.len() == campaign::batch_keys(batch).len(),
        forall|p: int, q: int| 0 <= p < q < places.len() ==> places[p] < places[q],
        forall|p: int|
            0 <= p < places.len() ==> {
                &&& 0 <= #[trigger] places[p] < batch.len()
                &&& batch[places[p]] == Some(campaign::batch_keys(batch)[p])
            },
        forall|i: int|
            0 <= i < batch.len() && (#[trigger] batch[i]) is Some ==> places.contains(i),
    decreases batch.len(),
{
    if batch.len() == 0 {
        Seq::empty()
    } else {
        let front = batch.drop_last();
        let last = batch.len() - 1;
        let before = lemma_batch_keys_places(front);
        assert forall|i: int| 0 <= i < last && (#[trigger] batch[i]) is Some implies before.contains(
            i,
        ) by {
            assert(front[i] == batch[i]);
        }
        assert forall|p: int| 0 <= p < before.len() implies front[#[trigger] before[p]]
            == batch[before[p]] by {}
        if batch[last] is Some {
            let places = before.push(last);
            assert forall|i: int| 0 <= i < batch.len() && (
            #[trigger] batch[i]) is Some implies places.contains(i) by {
                if i < last {
                    let p = choose|p: int| 0 <= p < before.len() && before[p] == i;
                    assert(places[p] == i);
                } else {
                    assert(places[before.len() as int] == i);
                }
            }
            places
        } else {
            before
        }
    }
}

/// A batch is made up of one to four messages, each without a key or with one
/// of 48.
pub proof fn lemma_fresh_meaning(batch: Seq<Option<u32>>)
    ensures
        campaign::is_fresh(batch) <==> 1 <= batch.len() <= 4 && forall|i: int|
            0 <= i < batch.len() && (#[trigger] batch[i]) is Some ==> batch[i]->0 < 48,
{
}

/// How one more message is made up: a roll below ten leaves it without a key
/// when it is zero, and else a roll below 48 is its key. A batch has one message
/// more than a roll below four.
pub proof fn lemma_made_up_meaning(dice: Xoshiro256PlusPlus, count: nat)
    ensures
        campaign::made_up(dice, 0).0.len() == 0,
        campaign::made_up(dice, 0).1 == dice,
        ({
            let (before, rest) = campaign::made_up(dice, count);
            let (unkeyed, next) = campaign::drawn_below(rest, 10);
            let (key, last) = campaign::drawn_below(next, 48);
            let (batch, after) = campaign::made_up(dice, count + 1);
            &&& batch.len() == before.len() + 1
            &&& batch.drop_last() == before
            &&& unkeyed == 0 ==> batch.last() is None && after == next
            &&& unkeyed != 0 ==> batch.last() == Some(key) && after == last
        }),
        ({
            let (more, rest) = campaign::drawn_below(dice, 4);
            campaign::fresh_rolled(dice) == campaign::made_up(rest, 1 + more as nat)
        }),
{
    let (before, rest) = campaign::made_up(dice, count);
    let (batch, after) = campaign::made_up(dice, count + 1);
    assert(batch.drop_last() =~= before);
}

/// What a free producer sends: with nothing sent lately, a batch made up; else a
/// roll below three picks, when it is zero, one of those sent lately by another
/// roll below their number, and a batch made up when it is not.
pub proof fn lemma_batch_rolls(producers: ProducersView, dice: Xoshiro256PlusPlus)
    ensures
        ({
            let (batch, after) = producers.batch_rolled(dice);
            let (again, rest) = campaign::drawn_below(dice, 3);
            let (at, last) = campaign::drawn_below(rest, producers.recent.len() as u32);
            &&& producers.recent.len() == 0 ==> (batch, after) == campaign::fresh_rolled(dice)
            &&& producers.recent.len() > 0 && again == 0 ==> batch == producers.recent[at as int]
                && after == last
            &&& producers.recent.len() > 0 && again != 0 ==> (batch, after)
                == campaign::fresh_rolled(rest)
        }),
{
}

/// What a producer does: one that waits rolls nothing; one that retries gives
/// up one time in five and resends else; one that is free pauses three times in
/// ten and sends else.
pub proof fn lemma_move_rolls(
    producers: ProducersView,
    dice: Xoshiro256PlusPlus,
    client: u128,
    step: usize,
)
    ensures
        ({
            let (next, after) = producers.move_rolled(dice, client, step);
            match producers.turn(client, step) {
                Turn::Waits => next is Wait && after == dice,
                Turn::Retries => {
                    let (dies, rest) = campaign::drawn_below(dice, 5);
                    &&& after == rest
                    &&& dies == 0 ==> next is GiveUp
                    &&& dies != 0 ==> next is Resend
                },
                Turn::Free => {
                    let (pauses, rest) = campaign::drawn_below(dice, 10);
                    let (batch, last) = producers.batch_rolled(rest);
                    &&& pauses < 3 ==> next is Wait && after == rest
                    &&& pauses >= 3 ==> next == MoveView::Send(batch) && after == last
                },
            }
        }),
{
}

/// The text of a key is the letter k and the key in decimal, so that different
/// keys have different texts.
pub proof fn lemma_key_texts_differ(left: u32, right: u32)
    ensures
        campaign::key_text(left).len() >= 2,
        campaign::key_text(left)[0] == 'k',
        campaign::key_text(left).skip(1) == decimal::decimal(left as nat),
        campaign::key_text(left) == campaign::key_text(right) ==> left == right,
{
    reveal_strlit("k");
    decimal_laws::lemma_decimal_reads_back(left as nat);
    decimal_laws::lemma_decimal_reads_back(right as nat);
    assert(campaign::key_text(left).skip(1) =~= decimal::decimal(left as nat));
    assert(campaign::key_text(right).skip(1) =~= decimal::decimal(right as nat));
}

} // verus!
