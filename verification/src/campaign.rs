//! A fuzz campaign against a replicated group: which faults to inject, what
//! each producer does next, and whether a run can be judged.
//!
//! Several producers resend events through retries, new sessions and
//! concurrent duplicates, while replicas crash and maybe restart. The group
//! itself runs elsewhere; a [`FaultPlan`] and a [`Producers`] say what to do to
//! it at each step and take in what it replied.

use std::collections::HashMap;

use rand::RngExt;
use rand_xoshiro::rand_core::SeedableRng;
use rand_xoshiro::Xoshiro256PlusPlus;
use vstd::prelude::*;
use vstd::string::*;

use crate::decimal;
use crate::decimal::push_decimal;

verus! {

broadcast use vstd::std_specs::hash::group_hash_axioms;

// ---------------------------------------------------------------------------
// Chance
// ---------------------------------------------------------------------------

/// `rand_xoshiro::Xoshiro256PlusPlus`, a seeded generator. Nothing is stated of
/// what is inside.
#[verifier::external_type_specification]
#[verifier::external_body]
pub struct ExXoshiro256PlusPlus(rand_xoshiro::Xoshiro256PlusPlus);

/// The generator that `SeedableRng::seed_from_u64` makes of a seed.
pub uninterp spec fn generator_of(seed: u64) -> Xoshiro256PlusPlus;

/// What `RngExt::random_range` over `0..bound` draws from a generator, and the
/// generator it leaves behind.
pub uninterp spec fn drawn_below(rng: Xoshiro256PlusPlus, bound: u32) -> (u32, Xoshiro256PlusPlus);

/// `SeedableRng::seed_from_u64` of `Xoshiro256PlusPlus`: the generator of a
/// seed. It depends on the seed alone; which numbers it will draw is not
/// stated.
#[verifier::external_body]
fn seeded(seed: u64) -> (rng: Xoshiro256PlusPlus)
    ensures
        rng == generator_of(seed),
{
    Xoshiro256PlusPlus::seed_from_u64(seed)
}

/// `RngExt::random_range` over `0..bound`: the next number drawn. The number
/// and the generator left behind depend on the generator and the bound alone,
/// and the number is below the bound; which one it is, is not stated. The
/// range must not be empty.
#[verifier::external_body]
fn draw_below(rng: &mut Xoshiro256PlusPlus, bound: u32) -> (drawn: u32)
    requires
        bound > 0,
    ensures
        (drawn, *final(rng)) == drawn_below(*old(rng), bound),
        drawn < bound,
{
    rng.random_range(0..bound)
}

/// The dice of a campaign. The same seed rolls the same numbers, so a run can
/// be replayed.
#[derive(Debug)]
pub struct Dice {
    rng: Xoshiro256PlusPlus,
}

impl View for Dice {
    type V = Xoshiro256PlusPlus;

    /// The generator that is rolled.
    closed spec fn view(&self) -> Xoshiro256PlusPlus {
        self.rng
    }
}

impl Dice {
    /// The dice of a seed.
    pub fn new(seed: u64) -> (dice: Self)
        ensures
            dice@ == generator_of(seed),
    {
        Dice { rng: seeded(seed) }
    }

    /// Roll a number below `bound`.
    pub fn roll(&mut self, bound: u32) -> (rolled: u32)
        requires
            bound > 0,
        ensures
            (rolled, final(self)@) == drawn_below(old(self)@, bound),
            rolled < bound,
    {
        draw_below(&mut self.rng, bound)
    }
}

// ---------------------------------------------------------------------------
// Faults
// ---------------------------------------------------------------------------

/// Replica faults a run injects.
#[derive(Debug, Clone, Copy, PartialEq, Eq, Structural)]
pub enum FaultMode {
    /// Three replicas, one at a time crashed and later restarted.
    CrashRestart,
    /// Five replicas, up to two crashed for good.
    CrashOnly,
}

impl FaultMode {
    /// How many replicas the group has.
    pub open spec fn group_size(self) -> u8 {
        match self {
            FaultMode::CrashRestart => 3,
            FaultMode::CrashOnly => 5,
        }
    }

    /// How many replicas the group has.
    pub fn replicas(self) -> (count: u8)
        ensures
            count == self.group_size(),
    {
        match self {
            FaultMode::CrashRestart => 3,
            FaultMode::CrashOnly => 5,
        }
    }
}

/// Steps a crashed replica stays down before it may be restarted.
pub const DOWN_STEPS: usize = 400;

/// The most replicas that crash for good.
pub const CRASHED_FOR_GOOD_MAX: usize = 2;

/// The odds of a fault: it happens when a roll below `out_of` is below
/// `under`.
#[derive(Debug, Clone, Copy, PartialEq, Eq, Structural)]
pub struct Odds {
    pub under: u32,
    pub out_of: u32,
}

/// What to do to the group.
#[derive(Debug, Clone, Copy, PartialEq, Eq, Structural)]
pub enum FaultAction {
    Nothing,
    Crash(u8),
    Restart(u8),
}

/// Which replicas are down, and which faults are due.
#[derive(Debug)]
pub struct FaultPlan {
    mode: FaultMode,
    crashed_at: Option<(u8, usize)>,
    crashed_for_good: Vec<u8>,
}

/// A [`FaultPlan`] in mathematical terms.
#[verifier::ext_equal]
pub struct FaultView {
    pub mode: FaultMode,
    /// The replica that is down for now, and the step it crashed at.
    pub crashed_at: Option<(u8, usize)>,
    pub crashed_for_good: Seq<u8>,
}

impl View for FaultPlan {
    type V = FaultView;

    closed spec fn view(&self) -> FaultView {
        FaultView {
            mode: self.mode,
            crashed_at: self.crashed_at,
            crashed_for_good: self.crashed_for_good@,
        }
    }
}

impl FaultView {
    /// No fault yet.
    pub open spec fn fresh(mode: FaultMode) -> FaultView {
        FaultView { mode, crashed_at: None, crashed_for_good: Seq::empty() }
    }

    /// What every step keeps.
    pub open spec fn valid(self) -> bool {
        &&& self.crashed_at matches Some((replica, at)) ==> replica < self.mode.group_size()
        &&& self.crashed_for_good.no_duplicates()
        &&& self.crashed_for_good.len() <= CRASHED_FOR_GOOD_MAX
        &&& forall|i: int|
            0 <= i < self.crashed_for_good.len() ==> #[trigger] self.crashed_for_good[i]
                < self.mode.group_size()
        &&& self.mode is CrashRestart ==> self.crashed_for_good.len() == 0
        &&& self.mode is CrashOnly ==> self.crashed_at is None
    }

    /// Whether `replica` is down.
    pub open spec fn is_down(self, replica: u8) -> bool {
        ||| self.crashed_at matches Some((down, at)) && down == replica
        ||| self.crashed_for_good.contains(replica)
    }

    /// The odds of a fault at `step`; `None` when none is due.
    pub open spec fn odds(self, step: usize) -> Option<Odds> {
        match self.mode {
            FaultMode::CrashRestart => match self.crashed_at {
                None => Some(Odds { under: 2, out_of: 1_000 }),
                Some((replica, at)) => if step > at + DOWN_STEPS {
                    Some(Odds { under: 5, out_of: 100 })
                } else {
                    None
                },
            },
            FaultMode::CrashOnly => if self.crashed_for_good.len() < CRASHED_FOR_GOOD_MAX {
                Some(Odds { under: 1, out_of: 1_000 })
            } else {
                None
            },
        }
    }

    /// What a fault that happens does: a replica that is down for now comes
    /// back, else `victim` crashes, unless it is down already.
    pub open spec fn action(self, victim: u8) -> FaultAction {
        match self.crashed_at {
            Some((replica, at)) => FaultAction::Restart(replica),
            None => if self.is_down(victim) {
                FaultAction::Nothing
            } else {
                FaultAction::Crash(victim)
            },
        }
    }

    /// The plan after `action` was taken at `step`.
    pub open spec fn after(self, action: FaultAction, step: usize) -> FaultView {
        match action {
            FaultAction::Nothing => self,
            FaultAction::Restart(_) => FaultView { crashed_at: None, ..self },
            FaultAction::Crash(victim) => match self.mode {
                FaultMode::CrashRestart => FaultView { crashed_at: Some((victim, step)), ..self },
                FaultMode::CrashOnly => FaultView {
                    crashed_for_good: self.crashed_for_good.push(victim),
                    ..self
                },
            },
        }
    }

    /// What the dice come to at `step`, and the dice afterwards: a due fault is
    /// rolled for, and where it is to crash a replica, the victim is.
    pub open spec fn rolled(
        self,
        dice: Xoshiro256PlusPlus,
        step: usize,
    ) -> (FaultAction, Xoshiro256PlusPlus) {
        match self.odds(step) {
            None => (FaultAction::Nothing, dice),
            Some(odds) => {
                let (hit, rest) = drawn_below(dice, odds.out_of);
                if hit >= odds.under {
                    (FaultAction::Nothing, rest)
                } else if self.crashed_at is Some {
                    (self.action(0), rest)
                } else {
                    let (victim, last) = drawn_below(rest, self.mode.group_size() as u32);
                    (self.action(victim as u8), last)
                }
            },
        }
    }

    /// How many replicas are down.
    pub open spec fn down_count(self) -> nat {
        self.crashed_for_good.len() + if self.crashed_at is Some {
            1nat
        } else {
            0nat
        }
    }
}

/// Faults always leave a quorum alive.
pub proof fn lemma_a_quorum_stays_alive(plan: FaultView)
    requires
        plan.valid(),
    ensures
        2 * (plan.mode.group_size() - plan.down_count()) > plan.mode.group_size(),
{
}

/// A fault that is due keeps the plan valid.
pub proof fn lemma_faults_keep_the_plan_valid(plan: FaultView, victim: u8, step: usize)
    requires
        plan.valid(),
        plan.odds(step) is Some,
        victim < plan.mode.group_size(),
    ensures
        plan.after(plan.action(victim), step).valid(),
{
    let after = plan.after(plan.action(victim), step);
    if plan.action(victim) is Crash && plan.mode is CrashOnly {
        assert(!plan.crashed_for_good.contains(victim));
        assert(after.crashed_for_good.no_duplicates());
        assert forall|i: int| 0 <= i < after.crashed_for_good.len() implies
        #[trigger] after.crashed_for_good[i] < plan.mode.group_size() by {
            if i < plan.crashed_for_good.len() {
                assert(after.crashed_for_good[i] == plan.crashed_for_good[i]);
            }
        }
    }
}

impl FaultPlan {
    /// No fault yet.
    pub fn new(mode: FaultMode) -> (plan: Self)
        ensures
            plan@ == FaultView::fresh(mode),
            plan@.valid(),
    {
        let plan = FaultPlan { mode, crashed_at: None, crashed_for_good: Vec::new() };
        assert(plan@ =~= FaultView::fresh(mode));
        plan
    }

    /// The odds of a fault at `step`; `None` when none is due.
    pub fn odds(&self, step: usize) -> (odds: Option<Odds>)
        ensures
            odds == self@.odds(step),
    {
        match self.mode {
            FaultMode::CrashRestart => match self.crashed_at {
                None => Some(Odds { under: 2, out_of: 1_000 }),
                Some((_, at)) => if step > DOWN_STEPS && step - DOWN_STEPS > at {
                    Some(Odds { under: 5, out_of: 100 })
                } else {
                    None
                },
            },
            FaultMode::CrashOnly => if self.crashed_for_good.len() < CRASHED_FOR_GOOD_MAX {
                Some(Odds { under: 1, out_of: 1_000 })
            } else {
                None
            },
        }
    }

    /// Whether a replica is among those crashed for good.
    fn is_gone(&self, replica: u8) -> (gone: bool)
        ensures
            gone == self@.crashed_for_good.contains(replica),
    {
        let mut i: usize = 0;
        while i < self.crashed_for_good.len()
            invariant
                i <= self.crashed_for_good@.len(),
                forall|j: int| 0 <= j < i ==> #[trigger] self.crashed_for_good@[j] != replica,
            decreases self.crashed_for_good@.len() - i,
        {
            if self.crashed_for_good[i] == replica {
                assert(self.crashed_for_good@.contains(self.crashed_for_good@[i as int]));
                return true;
            }
            i += 1;
        }
        false
    }

    /// A fault happens: take the action it comes to.
    pub fn strike(&mut self, victim: u8, step: usize) -> (action: FaultAction)
        requires
            old(self)@.valid(),
            old(self)@.odds(step) is Some,
            victim < old(self)@.mode.group_size(),
        ensures
            action == old(self)@.action(victim),
            final(self)@ == old(self)@.after(action, step),
            final(self)@.valid(),
    {
        proof {
            lemma_faults_keep_the_plan_valid(self@, victim, step);
        }
        let ghost before = self@;
        if let Some((replica, _)) = self.crashed_at {
            self.crashed_at = None;
            assert(self@ =~= before.after(FaultAction::Restart(replica), step));
            return FaultAction::Restart(replica);
        }
        if self.is_gone(victim) {
            return FaultAction::Nothing;
        }
        match self.mode {
            FaultMode::CrashRestart => {
                self.crashed_at = Some((victim, step));
            },
            FaultMode::CrashOnly => {
                self.crashed_for_good.push(victim);
            },
        }
        assert(self@ =~= before.after(FaultAction::Crash(victim), step));
        FaultAction::Crash(victim)
    }

    /// Roll for the fault of `step`: what the dice come to is done. Whatever is
    /// rolled, nothing happens, or a due fault strikes some replica of the
    /// group.
    pub fn roll(&mut self, dice: &mut Dice, step: usize) -> (action: FaultAction)
        requires
            old(self)@.valid(),
        ensures
            (action, final(dice)@) == old(self)@.rolled(old(dice)@, step),
            final(self)@.valid(),
            final(self)@ == old(self)@.after(action, step),
            action is Nothing || {
                &&& old(self)@.odds(step) is Some
                &&& exists|victim: u8|
                    victim < old(self)@.mode.group_size() && action == #[trigger] old(
                        self,
                    )@.action(victim)
            },
    {
        let odds = match self.odds(step) {
            Some(odds) => odds,
            None => {
                return FaultAction::Nothing;
            },
        };
        if dice.roll(odds.out_of) >= odds.under {
            return FaultAction::Nothing;
        }
        if self.crashed_at.is_some() {
            return self.strike(0, step);
        }
        let victim = dice.roll(self.mode.replicas() as u32);
        self.strike(victim as u8, step)
    }

    /// The replica that is down for now, to be restarted at the end of a run.
    pub fn down_for_now(&self) -> (replica: Option<u8>)
        ensures
            replica == match self@.crashed_at {
                Some((down, at)) => Some(down),
                None => None,
            },
    {
        match self.crashed_at {
            Some((replica, _)) => Some(replica),
            None => None,
        }
    }
}

// ---------------------------------------------------------------------------
// Producers
// ---------------------------------------------------------------------------

/// Events are drawn from this many keys.
pub const KEYSPACE: u32 = 48;

/// Steps a producer waits for a reply before it resends.
pub const REPLY_TIMEOUT_STEPS: usize = 400;

/// Batches that a producer may send again.
pub const RECENT_BATCHES: usize = 16;

/// The most messages of a fresh batch.
pub const FRESH_BATCH_MAX: u32 = 4;

/// A request awaiting its reply.
#[derive(Debug)]
pub struct InFlight {
    pub request: u64,
    /// The keys of its messages.
    pub keys: Vec<u32>,
    pub sent_at: usize,
}

/// An [`InFlight`] in mathematical terms.
#[verifier::ext_equal]
pub struct InFlightView {
    pub request: u64,
    pub keys: Seq<u32>,
    pub sent_at: usize,
}

impl View for InFlight {
    type V = InFlightView;

    open spec fn view(&self) -> InFlightView {
        InFlightView { request: self.request, keys: self.keys@, sent_at: self.sent_at }
    }
}

/// Whose turn it is: a producer with a request in flight waits or retries, one
/// without is free to send.
#[derive(Debug, Clone, Copy, PartialEq, Eq, Structural)]
pub enum Turn {
    Waits,
    Retries,
    Free,
}

/// What a producer does.
#[derive(Debug, PartialEq, Eq)]
pub enum Move {
    Wait,
    /// It dies before it retries: its events may never commit.
    GiveUp,
    /// It sends the request it has in flight again.
    Resend,
    /// It sends a batch of messages with these keys.
    Send(Vec<Option<u32>>),
}

/// The producers of a run: what they have in flight, what was acknowledged,
/// and the batches sent lately.
#[derive(Debug)]
pub struct Producers {
    in_flight: HashMap<u128, InFlight>,
    acked: Vec<u32>,
    recent: Vec<Vec<Option<u32>>>,
    successes: u64,
}

/// A [`Producers`] in mathematical terms.
#[verifier::ext_equal]
pub struct ProducersView {
    /// Requests in flight, by producer.
    pub in_flight: Map<u128, InFlightView>,
    /// The keys of every request answered with success, in that order.
    pub acked: Seq<u32>,
    /// The batches sent lately, the oldest first.
    pub recent: Seq<Seq<Option<u32>>>,
    /// Requests answered with success.
    pub successes: u64,
}

impl View for Producers {
    type V = ProducersView;

    closed spec fn view(&self) -> ProducersView {
        ProducersView {
            in_flight: self.in_flight@.map_values(|request: InFlight| request@),
            acked: self.acked@,
            recent: self.recent@.map_values(|batch: Vec<Option<u32>>| batch@),
            successes: self.successes,
        }
    }
}

/// The keys among the messages of a batch.
pub open spec fn batch_keys(batch: Seq<Option<u32>>) -> Seq<u32>
    decreases batch.len(),
{
    if batch.len() == 0 {
        Seq::empty()
    } else {
        match batch.last() {
            Some(key) => batch_keys(batch.drop_last()).push(key),
            None => batch_keys(batch.drop_last()),
        }
    }
}

/// Whether `batch` is one that a producer makes up: up to four messages, each
/// without a key or with one of the keyspace.
pub open spec fn is_fresh(batch: Seq<Option<u32>>) -> bool {
    &&& 1 <= batch.len() <= FRESH_BATCH_MAX
    &&& forall|i: int| 0 <= i < batch.len() ==> (#[trigger] batch[i] matches Some(key) ==> key
        < KEYSPACE)
}

/// The first `count` messages that the dice make up, and the dice afterwards:
/// one in ten is without a key, the others have one of the keyspace.
pub open spec fn made_up(dice: Xoshiro256PlusPlus, count: nat) -> (
    Seq<Option<u32>>,
    Xoshiro256PlusPlus,
)
    decreases count,
{
    if count == 0 {
        (Seq::empty(), dice)
    } else {
        let (before, rest) = made_up(dice, (count - 1) as nat);
        let (unkeyed, next) = drawn_below(rest, 10);
        if unkeyed == 0 {
            (before.push(None), next)
        } else {
            let (key, last) = drawn_below(next, KEYSPACE);
            (before.push(Some(key)), last)
        }
    }
}

/// The batch that the dice make up, and the dice afterwards.
pub open spec fn fresh_rolled(dice: Xoshiro256PlusPlus) -> (
    Seq<Option<u32>>,
    Xoshiro256PlusPlus,
) {
    let (more, rest) = drawn_below(dice, FRESH_BATCH_MAX);
    made_up(rest, (1 + more) as nat)
}

/// What a producer does, in mathematical terms.
#[verifier::ext_equal]
pub enum MoveView {
    Wait,
    GiveUp,
    Resend,
    Send(Seq<Option<u32>>),
}

impl View for Move {
    type V = MoveView;

    open spec fn view(&self) -> MoveView {
        match self {
            Move::Wait => MoveView::Wait,
            Move::GiveUp => MoveView::GiveUp,
            Move::Resend => MoveView::Resend,
            Move::Send(batch) => MoveView::Send(batch@),
        }
    }
}

impl ProducersView {
    /// The batch a free producer sends, and the dice afterwards: one time in
    /// three one of those sent lately, else one made up.
    pub open spec fn batch_rolled(self, dice: Xoshiro256PlusPlus) -> (
        Seq<Option<u32>>,
        Xoshiro256PlusPlus,
    ) {
        if self.recent.len() == 0 {
            fresh_rolled(dice)
        } else {
            let (again, rest) = drawn_below(dice, 3);
            if again == 0 {
                let (at, last) = drawn_below(rest, self.recent.len() as u32);
                (self.recent[at as int], last)
            } else {
                fresh_rolled(rest)
            }
        }
    }

    /// What the dice make `client` do at `step`, and the dice afterwards.
    pub open spec fn move_rolled(
        self,
        dice: Xoshiro256PlusPlus,
        client: u128,
        step: usize,
    ) -> (MoveView, Xoshiro256PlusPlus) {
        match self.turn(client, step) {
            Turn::Waits => (MoveView::Wait, dice),
            Turn::Retries => {
                let (dies, rest) = drawn_below(dice, 5);
                if dies == 0 {
                    (MoveView::GiveUp, rest)
                } else {
                    (MoveView::Resend, rest)
                }
            },
            Turn::Free => {
                let (pauses, rest) = drawn_below(dice, 10);
                if pauses < 3 {
                    (MoveView::Wait, rest)
                } else {
                    let (batch, last) = self.batch_rolled(rest);
                    (MoveView::Send(batch), last)
                }
            },
        }
    }

    /// Nothing sent yet.
    pub open spec fn fresh() -> ProducersView {
        ProducersView {
            in_flight: Map::empty(),
            acked: Seq::empty(),
            recent: Seq::empty(),
            successes: 0,
        }
    }

    /// Whose turn it is at `step`.
    pub open spec fn turn(self, client: u128, step: usize) -> Turn {
        if !self.in_flight.contains_key(client) {
            Turn::Free
        } else if step > self.in_flight[client].sent_at + REPLY_TIMEOUT_STEPS {
            Turn::Retries
        } else {
            Turn::Waits
        }
    }

    /// The producer `client` dies before it retries.
    pub open spec fn give_up(self, client: u128) -> ProducersView {
        ProducersView { in_flight: self.in_flight.remove(client), ..self }
    }

    /// The request of `client` counts as sent at `step`.
    pub open spec fn sent_again(self, client: u128, step: usize) -> ProducersView {
        ProducersView {
            in_flight: self.in_flight.insert(
                client,
                InFlightView { sent_at: step, ..self.in_flight[client] },
            ),
            ..self
        }
    }

    /// `client` sent `batch` as `request` at `step`. Only the newest batches
    /// are remembered.
    pub open spec fn sent(
        self,
        client: u128,
        request: u64,
        batch: Seq<Option<u32>>,
        step: usize,
    ) -> ProducersView {
        let longer = self.recent.push(batch);
        ProducersView {
            in_flight: self.in_flight.insert(
                client,
                InFlightView { request, keys: batch_keys(batch), sent_at: step },
            ),
            recent: if longer.len() > RECENT_BATCHES {
                longer.drop_first()
            } else {
                longer
            },
            ..self
        }
    }

    /// Whether a reply to `request` answers what `client` has in flight.
    pub open spec fn awaits(self, client: u128, request: u64) -> bool {
        self.in_flight.contains_key(client) && self.in_flight[client].request == request
    }

    /// A reply with `status` came for `request` of `client`. A success
    /// acknowledges the keys of the request; anything else is a transient
    /// refusal, after which the request counts as long overdue. A reply to
    /// nothing in flight is ignored.
    pub open spec fn replied(self, client: u128, request: u64, status: u32) -> ProducersView {
        if !self.awaits(client, request) {
            self
        } else if status == 0 {
            ProducersView {
                in_flight: self.in_flight.remove(client),
                acked: self.acked + self.in_flight[client].keys,
                successes: (self.successes + 1) as u64,
                ..self
            }
        } else {
            self.sent_again(client, 0)
        }
    }
}

/// A key is acknowledged by a success alone: whatever else happens, what was
/// acknowledged stays exactly as it was.
pub proof fn lemma_only_a_success_acknowledges(
    producers: ProducersView,
    client: u128,
    request: u64,
    status: u32,
    batch: Seq<Option<u32>>,
    step: usize,
)
    ensures
        producers.give_up(client).acked == producers.acked,
        producers.sent_again(client, step).acked == producers.acked,
        producers.sent(client, request, batch, step).acked == producers.acked,
        status != 0 ==> producers.replied(client, request, status).acked == producers.acked,
        producers.acked.is_prefix_of(producers.replied(client, request, status).acked),
{
}

/// A copy of a batch.
fn copy_batch(batch: &Vec<Option<u32>>) -> (copy: Vec<Option<u32>>)
    ensures
        copy@ == batch@,
{
    let mut copy: Vec<Option<u32>> = Vec::new();
    let mut i: usize = 0;
    while i < batch.len()
        invariant
            i <= batch@.len(),
            copy@ == batch@.take(i as int),
        decreases batch@.len() - i,
    {
        copy.push(batch[i]);
        assert(batch@.take(i + 1) =~= batch@.take(i as int).push(batch@[i as int]));
        i += 1;
    }
    assert(batch@.take(i as int) =~= batch@);
    copy
}

/// The keys among the messages of a batch.
fn keys_in(batch: &Vec<Option<u32>>) -> (keys: Vec<u32>)
    ensures
        keys@ == batch_keys(batch@),
{
    let mut keys: Vec<u32> = Vec::new();
    let mut i: usize = 0;
    while i < batch.len()
        invariant
            i <= batch@.len(),
            keys@ == batch_keys(batch@.take(i as int)),
        decreases batch@.len() - i,
    {
        assert(batch@.take(i + 1).drop_last() =~= batch@.take(i as int));
        if let Some(key) = batch[i] {
            keys.push(key);
        }
        i += 1;
    }
    assert(batch@.take(i as int) =~= batch@);
    keys
}

/// A batch made up by a producer.
fn fresh_batch(dice: &mut Dice) -> (batch: Vec<Option<u32>>)
    ensures
        (batch@, final(dice)@) == fresh_rolled(old(dice)@),
        is_fresh(batch@),
{
    let mut batch: Vec<Option<u32>> = Vec::new();
    let count = 1 + dice.roll(FRESH_BATCH_MAX);
    let ghost start = dice@;
    let mut i: u32 = 0;
    while i < count
        invariant
            i <= count,
            1 <= count <= FRESH_BATCH_MAX,
            batch@.len() == i,
            (batch@, dice@) == made_up(start, i as nat),
            forall|j: int|
                0 <= j < batch@.len() ==> (#[trigger] batch@[j] matches Some(key) ==> key
                    < KEYSPACE),
        decreases count - i,
    {
        if dice.roll(10) == 0 {
            batch.push(None);
        } else {
            batch.push(Some(dice.roll(KEYSPACE)));
        }
        i += 1;
    }
    batch
}

impl Producers {
    /// Nothing sent yet.
    pub fn new() -> (producers: Self)
        ensures
            producers@ == ProducersView::fresh(),
    {
        let producers = Producers {
            in_flight: HashMap::new(),
            acked: Vec::new(),
            recent: Vec::new(),
            successes: 0,
        };
        assert(producers@ =~= ProducersView::fresh());
        producers
    }

    /// Whose turn it is at `step`.
    pub fn turn(&self, client: u128, step: usize) -> (turn: Turn)
        ensures
            turn == self@.turn(client, step),
    {
        match self.in_flight.get(&client) {
            None => Turn::Free,
            Some(pending) => if step > REPLY_TIMEOUT_STEPS && step - REPLY_TIMEOUT_STEPS
                > pending.sent_at {
                Turn::Retries
            } else {
                Turn::Waits
            },
        }
    }

    /// The batch a free producer sends: one sent lately, as a restarted or
    /// second producer would send it, or one made up.
    fn next_batch(&self, dice: &mut Dice) -> (batch: Vec<Option<u32>>)
        requires
            self@.recent.len() <= RECENT_BATCHES,
        ensures
            (batch@, final(dice)@) == self@.batch_rolled(old(dice)@),
            self@.recent.contains(batch@) || is_fresh(batch@),
    {
        if self.recent.len() > 0 && dice.roll(3) == 0 {
            let at = dice.roll(self.recent.len() as u32) as usize;
            let batch = copy_batch(&self.recent[at]);
            assert(self@.recent[at as int] == batch@);
            batch
        } else {
            fresh_batch(dice)
        }
    }

    /// What `client` does at `step`. Whatever is rolled, a producer that waits
    /// goes on waiting, one that retries resends or gives up, and one that is
    /// free pauses or sends a batch that was sent lately or is made up.
    pub fn next_move(&self, dice: &mut Dice, client: u128, step: usize) -> (next: Move)
        requires
            self@.recent.len() <= RECENT_BATCHES,
        ensures
            (next@, final(dice)@) == self@.move_rolled(old(dice)@, client, step),
            match self@.turn(client, step) {
                Turn::Waits => next is Wait,
                Turn::Retries => next is GiveUp || next is Resend,
                Turn::Free => match next {
                    Move::Wait => true,
                    Move::Send(batch) => self@.recent.contains(batch@) || is_fresh(batch@),
                    _ => false,
                },
            },
    {
        match self.turn(client, step) {
            Turn::Waits => Move::Wait,
            Turn::Retries => if dice.roll(5) == 0 {
                Move::GiveUp
            } else {
                Move::Resend
            },
            Turn::Free => if dice.roll(10) < 3 {
                Move::Wait
            } else {
                Move::Send(self.next_batch(dice))
            },
        }
    }

    /// The producer `client` dies before it retries.
    pub fn give_up(&mut self, client: u128)
        ensures
            final(self)@ == old(self)@.give_up(client),
    {
        let ghost before = self@;
        self.in_flight.remove(&client);
        assert(self@ =~= before.give_up(client));
    }

    /// The request of `client` is sent again at `step`.
    pub fn sent_again(&mut self, client: u128, step: usize)
        requires
            old(self)@.in_flight.contains_key(client),
        ensures
            final(self)@ == old(self)@.sent_again(client, step),
    {
        let ghost before = self@;
        if let Some(pending) = self.in_flight.remove(&client) {
            self.in_flight.insert(
                client,
                InFlight { request: pending.request, keys: pending.keys, sent_at: step },
            );
        }
        assert(self@ =~= before.sent_again(client, step));
    }

    /// `client` sent `batch` as `request` at `step`.
    pub fn sent(&mut self, client: u128, request: u64, batch: Vec<Option<u32>>, step: usize)
        requires
            old(self)@.recent.len() <= RECENT_BATCHES,
        ensures
            final(self)@ == old(self)@.sent(client, request, batch@, step),
            final(self)@.recent.len() <= RECENT_BATCHES,
    {
        let ghost before = self@;
        let keys = keys_in(&batch);
        self.in_flight.insert(client, InFlight { request, keys, sent_at: step });
        self.recent.push(batch);
        if self.recent.len() > RECENT_BATCHES {
            self.recent.remove(0);
        }
        proof {
            let after = before.sent(client, request, batch@, step);
            assert(self@.in_flight =~= after.in_flight);
            assert(self@.recent =~= after.recent);
        }
    }

    /// A reply with `status` came for `request` of `client`.
    pub fn replied(&mut self, client: u128, request: u64, status: u32)
        requires
            old(self)@.successes < u64::MAX,
        ensures
            final(self)@ == old(self)@.replied(client, request, status),
    {
        let ghost before = self@;
        let expected = match self.in_flight.get(&client) {
            Some(pending) => pending.request == request,
            None => false,
        };
        if !expected {
            return ;
        }
        if status != 0 {
            self.sent_again(client, 0);
            return ;
        }
        if let Some(pending) = self.in_flight.remove(&client) {
            let mut keys = pending.keys;
            self.acked.append(&mut keys);
            self.successes = self.successes + 1;
        }
        assert(self@ =~= before.replied(client, request, status));
    }

    /// Requests answered with success.
    pub fn successes(&self) -> (count: u64)
        ensures
            count == self@.successes,
    {
        self.successes
    }

    /// The texts of the acknowledged keys, in the order they were.
    pub fn acked_keys(&self) -> (texts: Vec<String>)
        ensures
            texts@.len() == self@.acked.len(),
            forall|i: int|
                0 <= i < texts@.len() ==> (#[trigger] texts@[i])@ == key_text(self@.acked[i]),
    {
        let mut texts: Vec<String> = Vec::new();
        let mut i: usize = 0;
        while i < self.acked.len()
            invariant
                i <= self.acked@.len(),
                texts@.len() == i,
                forall|j: int|
                    0 <= j < i ==> (#[trigger] texts@[j])@ == key_text(self.acked@[j]),
            decreases self.acked@.len() - i,
        {
            texts.push(key_name(self.acked[i]));
            i += 1;
        }
        texts
    }
}

/// The text of a key.
pub open spec fn key_text(key: u32) -> Seq<char> {
    "k"@ + decimal::decimal(key as nat)
}

/// The text of a key.
pub fn key_name(key: u32) -> (text: String)
    ensures
        text@ == key_text(key),
{
    let mut text = "k".to_owned();
    push_decimal(&mut text, key as u64);
    text
}

// ---------------------------------------------------------------------------
// The end of a run
// ---------------------------------------------------------------------------

/// Whether the properties of a run can be judged: it must have let a request
/// through, and where replicas were restarted, the logs themselves must be
/// sound.
pub fn is_conclusive(successes: u64, mode: FaultMode, logs_sound: bool) -> (conclusive: bool)
    ensures
        conclusive == (successes > 0 && (mode is CrashRestart ==> logs_sound)),
{
    if successes == 0 {
        return false;
    }
    match mode {
        FaultMode::CrashRestart => logs_sound,
        FaultMode::CrashOnly => true,
    }
}

} // verus!
