//! A small replicated group run step by step: a primary screens requests,
//! backups receive what it appends, a majority commits it, and replicas crash,
//! restart and take over. The index, the decisions, the fault plan, the
//! producers and the judgement are the library's.

use std::collections::HashMap;
use std::str::FromStr;

use message_dedup::audit::{
    check_indexes_agree, check_invariants, check_prefixes_agree, key_of, latest_view,
    logs_are_sound, read_log, CommittedMessage, IndexState, ReplicaLog,
};
use message_dedup::batch::{
    classify_batch, record_committed_batch, record_pending_batch, Batch, BatchMessage,
};
use message_dedup::campaign::{
    is_conclusive, key_name, Dice, FaultAction, FaultMode, FaultPlan, Move, Producers,
};
use message_dedup::index::MessageDedupIndex;
use message_dedup::index_model::REBUILT_OP;
use message_dedup::policy::{DedupHeaderName, IggyDuration, MessageDedupPolicy};

const HEADER: &str = "dedup-key";
const STRING_KIND: u8 = 2;
/// Far longer than any run here, so every repeat inside a run is a duplicate.
const WINDOW_MICROS: u64 = 3_600 * 1_000_000;
const ENTRIES_MAX: usize = 10_000;
const SUCCESS: u32 = 0;
const TRANSIENT_NOT_COMMITTED: u32 = 1;

fn header() -> DedupHeaderName {
    DedupHeaderName::from_str(HEADER).unwrap()
}

fn policy() -> MessageDedupPolicy {
    MessageDedupPolicy {
        window: IggyDuration::from(WINDOW_MICROS),
        header: header(),
    }
}

fn key_headers(key: &str) -> Vec<u8> {
    let mut block = Vec::new();
    for content in [HEADER, key] {
        block.push(STRING_KIND);
        block.extend_from_slice(&(content.len() as u32).to_le_bytes());
        block.extend_from_slice(content.as_bytes());
    }
    block
}

fn keyed(keys: &[Option<&str>]) -> Vec<Vec<u8>> {
    keys.iter()
        .map(|key| key.map_or_else(Vec::new, key_headers))
        .collect()
}

/// One op of the log.
struct Entry {
    op: u64,
    client: u128,
    request: u64,
    batch: Batch,
}

struct Replica {
    alive: bool,
    index: MessageDedupIndex,
    /// Entries of the log it has received.
    received: usize,
    /// Entries it has committed.
    committed: usize,
}

struct Reply {
    client: u128,
    request: u64,
    status: u32,
}

struct Group {
    replicas: Vec<Replica>,
    log: Vec<Entry>,
    committed: usize,
    primary: usize,
    view: u32,
    next_op: u64,
    clock: u64,
    /// Requests being replicated, and the answers given.
    answered: HashMap<(u128, u64), Option<u32>>,
    replies: Vec<Reply>,
    /// Whether the backups can be reached.
    connected: bool,
    luck: u64,
}

impl Group {
    fn new(replicas: u8, seed: u64) -> Self {
        Self {
            replicas: (0..replicas)
                .map(|_| Replica {
                    alive: true,
                    index: MessageDedupIndex::new(ENTRIES_MAX),
                    received: 0,
                    committed: 0,
                })
                .collect(),
            log: Vec::new(),
            committed: 0,
            primary: 0,
            view: 0,
            next_op: 1,
            clock: 1,
            answered: HashMap::new(),
            replies: Vec::new(),
            connected: true,
            luck: seed.wrapping_mul(2).wrapping_add(1),
        }
    }

    fn chance(&mut self) -> u64 {
        self.luck = self
            .luck
            .wrapping_mul(6_364_136_223_846_793_005)
            .wrapping_add(1_442_695_040_888_963_407);
        self.luck >> 33
    }

    fn live_replicas(&self) -> Vec<usize> {
        (0..self.replicas.len())
            .filter(|replica| self.replicas[*replica].alive)
            .collect()
    }

    /// The primary screens a request and appends what it keeps.
    fn submit(&mut self, client: u128, request: u64, messages: &[Vec<u8>]) {
        if !self.replicas[self.primary].alive {
            return;
        }
        match self.answered.get(&(client, request)) {
            Some(Some(status)) => {
                let status = *status;
                self.replies.push(Reply { client, request, status });
                return;
            }
            Some(None) => return,
            None => {}
        }
        let commit_op = self.log[..self.committed].last().map_or(0, |entry| entry.op);
        let base_offset = self
            .log
            .iter()
            .map(|entry| entry.batch.messages.len() as u64)
            .sum();
        let wanted = Batch {
            base_offset,
            base_timestamp: self.clock,
            messages: messages
                .iter()
                .enumerate()
                .map(|(delta, block)| BatchMessage {
                    offset_delta: delta as u32,
                    user_headers: block.clone(),
                })
                .collect(),
        };
        let index = &mut self.replicas[self.primary].index;
        let verdict = classify_batch(&wanted, &policy(), index, self.clock, commit_op);
        if verdict.matched_uncommitted {
            index.note_deferred();
            self.replies.push(Reply {
                client,
                request,
                status: TRANSIENT_NOT_COMMITTED,
            });
            return;
        }
        index.note_dropped(verdict.dropped);
        if verdict.keeps_none() {
            self.answered.insert((client, request), Some(SUCCESS));
            self.replies.push(Reply {
                client,
                request,
                status: SUCCESS,
            });
            return;
        }
        let kept: Vec<Vec<u8>> = messages
            .iter()
            .zip(&verdict.keep)
            .filter(|(_, keep)| **keep)
            .map(|(block, _)| block.clone())
            .collect();
        let batch = Batch {
            base_offset,
            base_timestamp: self.clock,
            messages: kept
                .into_iter()
                .enumerate()
                .map(|(delta, user_headers)| BatchMessage {
                    offset_delta: delta as u32,
                    user_headers,
                })
                .collect(),
        };
        let op = self.next_op;
        self.next_op += 1;
        self.answered.insert((client, request), None);
        self.log.push(Entry {
            op,
            client,
            request,
            batch,
        });
        self.receive(self.primary);
    }

    /// A replica takes in the next entry of the log.
    fn receive(&mut self, replica: usize) {
        let state = &mut self.replicas[replica];
        if state.received < self.log.len() {
            let entry = &self.log[state.received];
            record_pending_batch(&mut state.index, &policy(), Some(&entry.batch), entry.op);
            state.received += 1;
        }
    }

    /// A replica commits the next entry that the group has committed.
    fn walk(&mut self, replica: usize) {
        let state = &mut self.replicas[replica];
        if state.committed < self.committed.min(state.received) {
            let entry = &self.log[state.committed];
            record_committed_batch(&mut state.index, &policy(), Some(&entry.batch), entry.op);
            state.committed += 1;
        }
    }

    fn step(&mut self) -> Vec<Reply> {
        self.clock += 1;
        for replica in self.live_replicas() {
            let reachable = self.connected || replica == self.primary;
            if reachable && self.chance() % 2 == 0 {
                self.receive(replica);
            }
            if reachable && self.chance() % 2 == 0 {
                self.walk(replica);
            }
        }
        let majority = self.replicas.len() / 2 + 1;
        while self.committed < self.log.len()
            && self.replicas[self.primary].alive
            && self
                .replicas
                .iter()
                .filter(|replica| replica.alive && replica.received > self.committed)
                .count()
                >= majority
        {
            let entry = &self.log[self.committed];
            let answer = (entry.client, entry.request);
            self.committed += 1;
            while self.replicas[self.primary].committed < self.committed {
                self.walk(self.primary);
            }
            self.answered.insert(answer, Some(SUCCESS));
            self.replies.push(Reply {
                client: answer.0,
                request: answer.1,
                status: SUCCESS,
            });
        }
        std::mem::take(&mut self.replies)
    }

    fn settle(&mut self, steps: usize) {
        for _ in 0..steps {
            self.step();
        }
    }

    fn reply_to(&mut self, client: u128, request: u64, max_steps: usize) -> Option<u32> {
        for _ in 0..max_steps {
            if let Some(reply) = self
                .step()
                .into_iter()
                .find(|reply| reply.client == client && reply.request == request)
            {
                return Some(reply.status);
            }
        }
        None
    }

    fn crash(&mut self, replica: usize) {
        self.replicas[replica].alive = false;
        if replica == self.primary {
            self.elect();
        }
    }

    /// The live replica that received most takes over. What it did not receive
    /// is lost to the group; the other replicas hear of the truncation or not.
    fn elect(&mut self) {
        let live = self.live_replicas();
        let next = *live
            .iter()
            .max_by_key(|replica| self.replicas[**replica].received)
            .unwrap();
        let kept = self.replicas[next].received;
        for entry in self.log.drain(kept..) {
            self.answered.remove(&(entry.client, entry.request));
        }
        let from_op = self.log.last().map_or(1, |entry| entry.op + 1);
        for (replica, state) in self.replicas.iter_mut().enumerate() {
            if state.received > kept {
                state.received = kept;
                if replica % 2 == 0 {
                    state.index.truncate_from_op(from_op);
                }
            }
        }
        self.primary = next;
        self.view += 1;
        while self.replicas[next].committed < self.committed {
            self.walk(next);
        }
    }

    /// A replica comes back with its committed log, and rebuilds its index
    /// from it.
    fn restart(&mut self, replica: usize) {
        let state = &mut self.replicas[replica];
        state.alive = true;
        state.index = MessageDedupIndex::new(ENTRIES_MAX);
        state.received = state.committed;
        for entry in &self.log[..state.committed] {
            record_committed_batch(&mut state.index, &policy(), Some(&entry.batch), REBUILT_OP);
        }
        if !self.replicas[self.primary].alive {
            self.elect();
        }
    }

    fn messages(&self, replica: usize) -> Vec<CommittedMessage> {
        self.log[..self.replicas[replica].committed]
            .iter()
            .flat_map(|entry| {
                entry.batch.messages.iter().map(|message| CommittedMessage {
                    offset: entry.batch.base_offset + u64::from(message.offset_delta),
                    user_headers: message.user_headers.clone(),
                })
            })
            .collect()
    }

    fn stamps(&self, replica: usize) -> Vec<(u64, u64)> {
        self.log[..self.replicas[replica].committed]
            .iter()
            .map(|entry| (entry.batch.base_offset, entry.batch.base_timestamp))
            .collect()
    }

    fn logs(&self) -> Vec<ReplicaLog> {
        self.live_replicas()
            .into_iter()
            .map(|replica| read_log(replica as u8, self.messages(replica), &header()))
            .collect()
    }

    fn assert_invariants(&self, context: &str, acked: &Vec<String>) {
        let violation = check_invariants(&self.logs(), acked);
        assert!(violation.is_none(), "{context}: {violation:?}");
        assert!(check_prefixes_agree(&self.logs()).is_none());
    }

    fn assert_indexes_agree(&self, context: &str) {
        let states: Vec<IndexState> = self
            .live_replicas()
            .into_iter()
            .map(|replica| IndexState {
                replica: replica as u8,
                commit: self.replicas[replica].committed as u64,
                fingerprint: self.replicas[replica].index.fingerprint(),
            })
            .collect();
        let odd = check_indexes_agree(&states);
        assert!(odd.is_none(), "{context}: {odd:?} in {states:?}");
    }
}

fn strings(keys: &[&str]) -> Vec<String> {
    keys.iter().map(|key| (*key).to_string()).collect()
}

#[test]
fn given_dedup_topic_when_keys_repeat_should_commit_each_key_once_on_every_replica() {
    let mut group = Group::new(3, 1);
    let batches = [
        keyed(&[Some("a"), Some("b")]),
        // Repeats of `a` and `b`, a new key, a repeat inside the batch, and a
        // message with no key at all.
        keyed(&[Some("a"), Some("c"), Some("c"), None, Some("b")]),
    ];
    for (request, batch) in batches.iter().enumerate() {
        group.submit(1, request as u64, batch);
        assert_eq!(group.reply_to(1, request as u64, 500), Some(SUCCESS));
    }
    group.settle(200);

    let expected: Vec<Option<String>> =
        vec![Some("a".into()), Some("b".into()), Some("c".into()), None];
    for replica in group.live_replicas() {
        let keys: Vec<Option<String>> = group
            .messages(replica)
            .iter()
            .map(|message| key_of(&message.user_headers, &header()))
            .collect();
        assert_eq!(keys, expected, "replica {replica}");
    }
    group.assert_invariants("basic", &strings(&["a", "b", "c"]));
    group.assert_indexes_agree("basic");
}

#[test]
fn given_committed_originals_when_whole_batch_repeats_should_succeed_without_appending() {
    let mut group = Group::new(3, 2);
    let batch = keyed(&[Some("x"), Some("y")]);
    group.submit(1, 1, &batch);
    assert_eq!(group.reply_to(1, 1, 500), Some(SUCCESS));
    group.settle(100);
    let before = group.messages(0).len();

    // A different client (new session: request-level dedup cannot help) sends
    // the same events.
    group.submit(2, 1, &batch);
    assert_eq!(
        group.reply_to(2, 1, 500),
        Some(SUCCESS),
        "a fully duplicate batch of committed events is a success"
    );
    group.settle(100);
    for replica in group.live_replicas() {
        assert_eq!(group.messages(replica).len(), before, "replica {replica}");
    }
    let dropped = group.replicas[0].index.take_counters().dropped;
    assert!(dropped >= 2, "the drop must be metered, saw {dropped}");
}

#[test]
fn given_uncommitted_original_when_whole_batch_repeats_should_answer_transient_then_succeed() {
    // The duplicate lands while its original is still in the pipeline. A
    // success here would be a lie if a view change truncated the original,
    // so it must be refused transiently, and succeed once the original commits.
    let mut group = Group::new(3, 3);
    let batch = keyed(&[Some("pending")]);
    // Cut the backups off so the original cannot reach quorum while the
    // duplicate is screened.
    group.connected = false;
    group.submit(1, 1, &batch);
    group.settle(50);
    group.submit(2, 1, &batch);
    assert_eq!(
        group.reply_to(2, 1, 300),
        Some(TRANSIENT_NOT_COMMITTED),
        "a duplicate of an uncommitted message must not claim success"
    );
    group.connected = true;
    assert_eq!(group.reply_to(1, 1, 2_000), Some(SUCCESS));

    group.submit(2, 1, &batch);
    assert_eq!(group.reply_to(2, 1, 500), Some(SUCCESS));
    group.settle(100);
    group.assert_invariants("pending", &strings(&["pending"]));
    for replica in group.live_replicas() {
        assert_eq!(group.messages(replica).len(), 1, "replica {replica}");
    }
}

#[test]
fn given_primary_crash_when_new_producer_resends_should_be_absorbed_by_the_inherited_index() {
    let mut group = Group::new(3, 4);
    let names: Vec<String> = (0..5).map(|index| format!("event-{index}")).collect();
    let mut batch: Vec<Vec<u8>> = names.iter().map(|name| key_headers(name)).collect();
    group.submit(1, 1, &batch);
    assert_eq!(group.reply_to(1, 1, 500), Some(SUCCESS));
    group.settle(100);

    group.crash(0);
    group.settle(1_500);
    assert_ne!(group.primary, 0, "a survivor must have taken over");

    // A restarted producer: new client, new session, same events plus one.
    batch.push(key_headers("event-new"));
    group.submit(2, 1, &batch);
    assert_eq!(group.reply_to(2, 1, 1_000), Some(SUCCESS));
    group.settle(200);

    let mut acked = names;
    acked.push("event-new".to_string());
    group.assert_invariants("failover", &acked);
    for replica in group.live_replicas() {
        assert_eq!(group.messages(replica).len(), 6, "replica {replica}");
    }
}

#[test]
fn given_backup_restart_should_rebuild_the_same_index_as_its_peers() {
    let mut group = Group::new(3, 5);
    let mut acked = Vec::new();
    for round in 0..6u64 {
        let names: Vec<String> = (0..4).map(|index| format!("k-{round}-{index}")).collect();
        let batch: Vec<Vec<u8>> = names.iter().map(|name| key_headers(name)).collect();
        acked.extend(names);
        group.submit(1, round, &batch);
        assert_eq!(group.reply_to(1, round, 500), Some(SUCCESS));
    }
    group.settle(200);
    group.assert_indexes_agree("before restart");

    group.crash(2);
    group.settle(50);
    group.restart(2);
    group.settle(3_000);
    group.assert_invariants("after restart", &acked);
    group.assert_indexes_agree("after restart");
}

#[test]
fn given_restart_with_retained_log_should_rebuild_the_index_without_any_repair() {
    let mut group = Group::new(3, 6);
    let mut acked = Vec::new();
    for round in 0..4u64 {
        let names: Vec<String> = (0..3).map(|index| format!("r-{round}-{index}")).collect();
        let batch: Vec<Vec<u8>> = names.iter().map(|name| key_headers(name)).collect();
        acked.extend(names);
        group.submit(1, round, &batch);
        assert_eq!(group.reply_to(1, round, 500), Some(SUCCESS));
    }
    group.settle(200);
    let before = group.replicas[1].index.len();
    assert_eq!(before, 12);
    group.crash(1);
    group.settle(20);
    group.restart(1);
    assert_eq!(
        group.replicas[1].index.len(),
        before,
        "rebuild right after restart"
    );
    group.settle(1_000);
    group.assert_indexes_agree("after restart");
    group.assert_invariants("after restart", &acked);
}

/// One seeded run: several producers resend events through retries, new
/// sessions and concurrent duplicates, while replicas crash and maybe restart.
fn dedup_fuzz(seed: u64, steps: usize, mode: FaultMode) -> bool {
    const CLIENTS: [u128; 3] = [1, 2, 3];
    let mut group = Group::new(mode.replicas(), seed);
    let mut dice = Dice::new(seed ^ 0x0dd5_eed0);
    let mut plan = FaultPlan::new(mode);
    let mut producers = Producers::new();
    let mut sent: HashMap<u128, Vec<Vec<u8>>> = HashMap::new();
    let mut requests: HashMap<u128, u64> = HashMap::new();

    for step in 0..steps {
        match plan.roll(&mut dice, step) {
            FaultAction::Nothing => {}
            FaultAction::Crash(victim) => group.crash(usize::from(victim)),
            FaultAction::Restart(victim) => group.restart(usize::from(victim)),
        }
        for client in CLIENTS {
            match producers.next_move(&mut dice, client, step) {
                Move::Wait => {}
                Move::GiveUp => producers.give_up(client),
                Move::Resend => {
                    producers.sent_again(client, step);
                    group.submit(client, requests[&client], &sent[&client]);
                }
                Move::Send(batch) => {
                    let blocks: Vec<Vec<u8>> = batch
                        .iter()
                        .map(|key| key.map_or_else(Vec::new, |key| key_headers(&key_name(key))))
                        .collect();
                    let request = requests.get(&client).map_or(1, |last| last + 1);
                    producers.sent(client, request, batch, step);
                    group.submit(client, request, &blocks);
                    sent.insert(client, blocks);
                    requests.insert(client, request);
                }
            }
        }
        for reply in group.step() {
            producers.replied(reply.client, reply.request, reply.status);
        }
    }

    if let Some(victim) = plan.down_for_now() {
        group.restart(usize::from(victim));
    }
    group.settle(8_000);
    assert_eq!(latest_view(&vec![0, group.view]), group.view);
    let context = format!("seed {seed} {mode:?}");
    let stamps: Vec<Vec<(u64, u64)>> = group
        .live_replicas()
        .into_iter()
        .map(|replica| group.stamps(replica))
        .collect();
    if !is_conclusive(
        producers.successes(),
        mode,
        logs_are_sound(&group.logs(), &stamps),
    ) {
        return false;
    }
    group.assert_invariants(&context, &producers.acked_keys());
    group.assert_indexes_agree(&context);
    true
}

#[test]
fn dedup_fuzz_fixed_seeds_crash_restart() {
    let conclusive = (1..=24u64)
        .filter(|seed| dedup_fuzz(*seed, 6_000, FaultMode::CrashRestart))
        .count();
    // Most runs must be judgeable, or this test would pass by skipping.
    assert!(
        conclusive >= 8,
        "only {conclusive} of 24 runs were conclusive"
    );
}

#[test]
fn dedup_fuzz_fixed_seeds_crash_only() {
    for seed in [1, 2, 3, 7, 42, 1_337, 9_001, 65_537] {
        assert!(dedup_fuzz(seed, 6_000, FaultMode::CrashOnly));
    }
}

#[test]
fn dedup_fuzz_regression_seeds() {
    assert!(dedup_fuzz(30_104, 10_000, FaultMode::CrashOnly));
}
