use message_dedup::campaign::{
    is_conclusive, key_name, Dice, FaultAction, FaultMode, FaultPlan, Move, Odds, Producers, Turn,
};
use rand::RngExt;
use rand_xoshiro::rand_core::SeedableRng;
use rand_xoshiro::Xoshiro256PlusPlus;

#[test]
fn dice_draw_what_the_generator_of_their_seed_draws() {
    let mut dice = Dice::new(42);
    let mut rng = Xoshiro256PlusPlus::seed_from_u64(42);
    for _ in 0..50 {
        assert_eq!(dice.roll(1_000), rng.random_range(0..1_000u32));
        assert_eq!(dice.roll(5), u32::from(rng.random_range(0..5u8)));
        assert_eq!(dice.roll(16) as usize, rng.random_range(0..16usize));
        assert_eq!(1 + dice.roll(4), rng.random_range(1..=4u32));
    }
    let mut again = Dice::new(7);
    let mut other = Dice::new(7);
    for _ in 0..50 {
        assert_eq!(again.roll(48), other.roll(48));
    }
}

#[test]
fn one_replica_at_a_time_crashes_and_comes_back() {
    let mut plan = FaultPlan::new(FaultMode::CrashRestart);
    assert_eq!(FaultMode::CrashRestart.replicas(), 3);
    assert_eq!(plan.odds(0), Some(Odds { under: 2, out_of: 1_000 }));
    assert_eq!(plan.strike(2, 10), FaultAction::Crash(2));
    assert_eq!(plan.down_for_now(), Some(2));
    assert_eq!(plan.odds(410), None);
    assert_eq!(plan.odds(411), Some(Odds { under: 5, out_of: 100 }));
    assert_eq!(plan.strike(0, 411), FaultAction::Restart(2));
    assert_eq!(plan.down_for_now(), None);
}

#[test]
fn two_replicas_at_most_crash_for_good() {
    let mut plan = FaultPlan::new(FaultMode::CrashOnly);
    assert_eq!(FaultMode::CrashOnly.replicas(), 5);
    assert_eq!(plan.odds(0), Some(Odds { under: 1, out_of: 1_000 }));
    assert_eq!(plan.strike(4, 1), FaultAction::Crash(4));
    assert_eq!(plan.strike(4, 2), FaultAction::Nothing);
    assert_eq!(plan.strike(0, 3), FaultAction::Crash(0));
    assert_eq!(plan.odds(4), None);
    assert_eq!(plan.down_for_now(), None);
}

#[test]
fn faults_always_leave_a_quorum_alive() {
    for (mode, replicas) in [(FaultMode::CrashRestart, 3), (FaultMode::CrashOnly, 5)] {
        let mut dice = Dice::new(9);
        let mut plan = FaultPlan::new(mode);
        let mut down = vec![false; replicas];
        for step in 0..20_000 {
            match plan.roll(&mut dice, step) {
                FaultAction::Nothing => {}
                FaultAction::Crash(victim) => {
                    assert!(!down[usize::from(victim)]);
                    down[usize::from(victim)] = true;
                }
                FaultAction::Restart(victim) => {
                    assert!(down[usize::from(victim)]);
                    down[usize::from(victim)] = false;
                }
            }
            let alive = down.iter().filter(|down| !**down).count();
            assert!(2 * alive > replicas);
        }
        assert!(down.iter().any(|down| *down) || mode == FaultMode::CrashRestart);
    }
}

#[test]
fn a_producer_waits_then_retries() {
    let mut producers = Producers::new();
    assert_eq!(producers.turn(1, 0), Turn::Free);
    producers.sent(1, 7, vec![Some(3), None, Some(4)], 100);
    assert_eq!(producers.turn(1, 500), Turn::Waits);
    assert_eq!(producers.turn(1, 501), Turn::Retries);
    assert_eq!(producers.turn(2, 501), Turn::Free);
    producers.sent_again(1, 501);
    assert_eq!(producers.turn(1, 901), Turn::Waits);
    // A refusal is retried as soon as the timeout counts from the start.
    producers.replied(1, 7, 9);
    assert_eq!(producers.turn(1, 901), Turn::Retries);
    producers.give_up(1);
    assert_eq!(producers.turn(1, 902), Turn::Free);
    assert!(producers.acked_keys().is_empty());
}

#[test]
fn only_a_success_acknowledges() {
    let mut producers = Producers::new();
    producers.sent(1, 7, vec![Some(3), None, Some(14)], 0);
    producers.replied(1, 6, 0);
    producers.replied(2, 7, 0);
    producers.replied(1, 7, 5);
    assert_eq!(producers.successes(), 0);
    assert!(producers.acked_keys().is_empty());
    producers.replied(1, 7, 0);
    assert_eq!(producers.successes(), 1);
    assert_eq!(producers.acked_keys(), vec!["k3".to_string(), "k14".to_string()]);
    // Answered once: a second reply is to nothing in flight.
    producers.replied(1, 7, 0);
    assert_eq!(producers.successes(), 1);
}

#[test]
fn moves_follow_the_turn() {
    let mut dice = Dice::new(3);
    let mut producers = Producers::new();
    let mut sends = 0;
    for step in 0..2_000usize {
        match producers.next_move(&mut dice, 1, step) {
            Move::Wait => {}
            Move::GiveUp => producers.give_up(1),
            Move::Resend => producers.sent_again(1, step),
            Move::Send(batch) => {
                assert!((1..=4).contains(&batch.len()));
                assert!(batch.iter().flatten().all(|key| *key < 48));
                sends += 1;
                producers.sent(1, sends, batch, step);
                if sends % 2 == 0 {
                    producers.replied(1, sends, 0);
                }
            }
        }
    }
    assert!(sends > 2);
}

#[test]
fn keys_are_named_by_number() {
    assert_eq!(key_name(0), "k0");
    assert_eq!(key_name(47), "k47");
}

#[test]
fn a_run_without_a_success_or_with_broken_logs_is_not_judged() {
    assert!(!is_conclusive(0, FaultMode::CrashOnly, true));
    assert!(is_conclusive(1, FaultMode::CrashOnly, false));
    assert!(!is_conclusive(1, FaultMode::CrashRestart, false));
    assert!(is_conclusive(1, FaultMode::CrashRestart, true));
}
