//! Judging the replicas of a group: what every run must leave behind.
//!
//! 1. no dedup key is committed twice (the window outlasts the run);
//! 2. every key of a request answered with success is committed (no loss);
//! 3. replicas hold the same committed messages;
//! 4. replicas hold the same dedup index for the same log.

use vstd::prelude::*;

use crate::audit_laws;
use crate::policy;
use crate::policy::{lossy_text, DedupHeaderName};
use crate::user_headers;

verus! {

// ---------------------------------------------------------------------------
// Committed logs
// ---------------------------------------------------------------------------

/// A committed message: its offset and its raw user-header block.
#[derive(Debug)]
pub struct CommittedMessage {
    pub offset: u64,
    pub user_headers: Vec<u8>,
}

/// A replica's committed messages, with the dedup key of each as text.
#[derive(Debug)]
pub struct ReplicaLog {
    pub replica: u8,
    pub messages: Vec<CommittedMessage>,
    pub keys: Vec<Option<String>>,
}

/// A committed message in mathematical terms.
pub struct MessageView {
    pub offset: u64,
    pub user_headers: Seq<u8>,
}

/// A replica's log in mathematical terms.
pub struct LogView {
    pub replica: u8,
    pub messages: Seq<MessageView>,
    pub keys: Seq<Option<Seq<char>>>,
}

/// The text of a key, where there is one.
pub open spec fn key_view(key: Option<String>) -> Option<Seq<char>> {
    match key {
        Some(text) => Some(text@),
        None => None,
    }
}

impl View for CommittedMessage {
    type V = MessageView;

    open spec fn view(&self) -> MessageView {
        MessageView { offset: self.offset, user_headers: self.user_headers@ }
    }
}

impl View for ReplicaLog {
    type V = LogView;

    open spec fn view(&self) -> LogView {
        LogView {
            replica: self.replica,
            messages: self.messages@.map_values(|message: CommittedMessage| message@),
            keys: self.keys@.map_values(|key: Option<String>| key_view(key)),
        }
    }
}

/// Logs in mathematical terms.
pub open spec fn log_views(logs: Seq<ReplicaLog>) -> Seq<LogView> {
    logs.map_values(|log: ReplicaLog| log@)
}

/// The value of the header `name` in `block`.
pub open spec fn header_value(block: Seq<u8>, name: Seq<u8>) -> Option<Seq<u8>> {
    match user_headers::identity(block, name) {
        Some(identity) => Some(identity.skip(1)),
        None => None,
    }
}

/// The dedup key a committed message carries, as text, if any. A value that is
/// not text reads with replacement characters.
pub fn key_of(block: &[u8], header: &DedupHeaderName) -> (key: Option<String>)
    requires
        header.well_formed(),
    ensures
        key_view(key) == match header_value(block@, header@) {
            Some(value) => Some(policy::utf8_lossy(value)),
            None => None,
        },
        key is Some <==> user_headers::decode(block@) is Some && exists|i: int|
            0 <= i < user_headers::decode(block@)->0.len() && (#[trigger] user_headers::decode(
                block@,
            )->0[i]).key.content == header@,
        key matches Some(text) ==> exists|i: int|
            {
                &&& 0 <= i < user_headers::decode(block@)->0.len()
                &&& (#[trigger] user_headers::decode(block@)->0[i]).key.content == header@
                &&& forall|j: int|
                    0 <= j < i ==> (#[trigger] user_headers::decode(block@)->0[j]).key.content
                        != header@
                &&& text@ == policy::utf8_lossy(user_headers::decode(block@)->0[i].value.content)
            },
{
    proof {
        audit_laws::lemma_header_value_is_whole(block@, header@);
    }
    match user_headers::header_identity(block, header.as_bytes()) {
        Some(identity) => {
            let value = vstd::slice::slice_subrange(identity.as_slice(), 1, identity.len());
            assert(value@ =~= header_value(block@, header@)->0);
            Some(lossy_text(value))
        },
        None => None,
    }
}

/// The dedup keys of `messages` under the header `name`.
pub open spec fn keys_of(messages: Seq<CommittedMessage>, name: Seq<u8>) -> Seq<Option<Seq<char>>> {
    messages.map_values(
        |message: CommittedMessage|
            match header_value(message.user_headers@, name) {
                Some(value) => Some(policy::utf8_lossy(value)),
                None => None,
            },
    )
}

/// A replica's committed messages, with the dedup key of each.
pub fn read_log(replica: u8, messages: Vec<CommittedMessage>, header: &DedupHeaderName) -> (log:
    ReplicaLog)
    requires
        header.well_formed(),
    ensures
        log.replica == replica,
        log.messages == messages,
        log@.keys == keys_of(messages@, header@),
{
    let mut keys: Vec<Option<String>> = Vec::new();
    let ghost all = keys_of(messages@, header@);
    let mut i: usize = 0;
    while i < messages.len()
        invariant
            i <= messages@.len(),
            header.well_formed(),
            all == keys_of(messages@, header@),
            keys@.len() == i,
            forall|j: int| 0 <= j < i ==> key_view(#[trigger] keys@[j]) == all[j],
        decreases messages@.len() - i,
    {
        keys.push(key_of(messages[i].user_headers.as_slice(), header));
        i += 1;
    }
    let log = ReplicaLog { replica, messages, keys };
    assert(log@.keys =~= all);
    log
}

// ---------------------------------------------------------------------------
// Gaps and agreement
// ---------------------------------------------------------------------------

/// The first place after which `offsets` do not go on by one, as the index of
/// the offset before it.
pub open spec fn first_gap(offsets: Seq<u64>) -> Option<int>
    decreases offsets.len(),
{
    if offsets.len() < 2 {
        None
    } else {
        match first_gap(offsets.drop_last()) {
            Some(at) => Some(at),
            None => if offsets.last() == offsets[offsets.len() - 2] + 1 {
                None
            } else {
                Some(offsets.len() - 2)
            },
        }
    }
}

/// A log without gaps counts up by one from its first offset, and only such a
/// log has none.
pub proof fn lemma_no_gap(offsets: Seq<u64>)
    ensures
        first_gap(offsets) is None <==> forall|i: int|
            0 <= i < offsets.len() ==> #[trigger] offsets[i] == offsets[0] + i,
        first_gap(offsets) matches Some(at) ==> 0 <= at < offsets.len() - 1,
    decreases offsets.len(),
{
    if offsets.len() >= 2 {
        let front = offsets.drop_last();
        lemma_no_gap(front);
        if forall|i: int| 0 <= i < offsets.len() ==> #[trigger] offsets[i] == offsets[0] + i {
            assert forall|i: int| 0 <= i < front.len() implies #[trigger] front[i] == front[0]
                + i by {
                assert(offsets[i] == offsets[0] + i);
            }
            assert(offsets[offsets.len() - 1] == offsets[0] + offsets.len() - 1);
            assert(offsets[offsets.len() - 2] == offsets[0] + offsets.len() - 2);
        }
        if first_gap(offsets) is None {
            assert forall|i: int| 0 <= i < offsets.len() implies #[trigger] offsets[i]
                == offsets[0] + i by {
                if i < front.len() {
                    assert(front[i] == front[0] + i);
                } else {
                    assert(front[offsets.len() - 2] == front[0] + offsets.len() - 2);
                }
            }
        }
    }
}

/// The offsets of a log.
pub open spec fn offsets(log: LogView) -> Seq<u64> {
    log.messages.map_values(|message: MessageView| message.offset)
}

/// Where the committed offsets of a log first leave a gap.
fn find_gap(log: &ReplicaLog) -> (gap: Option<usize>)
    ensures
        match gap {
            Some(at) => first_gap(offsets(log@)) == Some(at as int) && at < log.messages@.len(),
            None => first_gap(offsets(log@)) is None,
        },
{
    let ghost all = offsets(log@);
    let mut i: usize = 1;
    if log.messages.len() < 2 {
        return None;
    }
    assert(all.take(1).len() < 2);
    while i < log.messages.len()
        invariant
            1 <= i <= log.messages@.len(),
            all == offsets(log@),
            all.len() == log.messages@.len(),
            first_gap(all.take(i as int)) is None,
        decreases log.messages@.len() - i,
    {
        let before = log.messages[i - 1].offset;
        let here = log.messages[i].offset;
        assert(all[i - 1] == before && all[i as int] == here);
        assert(all.take(i + 1).drop_last() =~= all.take(i as int));
        assert(all.take(i + 1)[i - 1] == before && all.take(i + 1).last() == here);
        if before == u64::MAX || here != before + 1 {
            proof {
                lemma_first_gap_stays(all, i + 1);
            }
            return Some(i - 1);
        }
        i += 1;
    }
    assert(all.take(i as int) =~= all);
    None
}

proof fn lemma_first_gap_stays(offsets: Seq<u64>, n: int)
    requires
        0 <= n <= offsets.len(),
        first_gap(offsets.take(n)) is Some,
    ensures
        first_gap(offsets) == first_gap(offsets.take(n)),
    decreases offsets.len() - n,
{
    if n < offsets.len() {
        assert(offsets.take(n + 1).drop_last() =~= offsets.take(n));
        lemma_first_gap_stays(offsets, n + 1);
    } else {
        assert(offsets.take(n) =~= offsets);
    }
}

/// The length of the shortest log.
pub open spec fn shortest(logs: Seq<LogView>) -> nat
    decreases logs.len(),
{
    if logs.len() == 0 {
        0
    } else if logs.len() == 1 {
        logs[0].messages.len()
    } else {
        let before = shortest(logs.drop_last());
        if logs.last().messages.len() < before {
            logs.last().messages.len()
        } else {
            before
        }
    }
}

/// The length of the longest log.
pub open spec fn longest(logs: Seq<LogView>) -> nat
    decreases logs.len(),
{
    if logs.len() == 0 {
        0
    } else {
        let before = longest(logs.drop_last());
        if logs.last().messages.len() > before {
            logs.last().messages.len()
        } else {
            before
        }
    }
}

proof fn lemma_shortest(logs: Seq<LogView>)
    ensures
        forall|i: int| 0 <= i < logs.len() ==> shortest(logs) <= (#[trigger] logs[i]).messages.len(),
    decreases logs.len(),
{
    if logs.len() > 1 {
        let front = logs.drop_last();
        lemma_shortest(front);
        assert forall|i: int| 0 <= i < logs.len() implies shortest(logs) <= (
        #[trigger] logs[i]).messages.len() by {
            if i < front.len() {
                assert(front[i] == logs[i]);
            }
        }
    }
}

fn shortest_len(logs: &Vec<ReplicaLog>) -> (len: usize)
    ensures
        len == shortest(log_views(logs@)),
{
    let ghost views = log_views(logs@);
    if logs.len() == 0 {
        return 0;
    }
    assert(views[0] == logs@[0]@);
    let mut len: usize = logs[0].messages.len();
    let mut i: usize = 1;
    while i < logs.len()
        invariant
            1 <= i <= logs@.len(),
            views == log_views(logs@),
            views.len() == logs@.len(),
            len == shortest(views.take(i as int)),
        decreases logs@.len() - i,
    {
        assert(views.take(i + 1).drop_last() =~= views.take(i as int));
        assert(views.take(i + 1).last() == logs@[i as int]@);
        if logs[i].messages.len() < len {
            len = logs[i].messages.len();
        }
        i += 1;
    }
    assert(views.take(i as int) =~= views);
    len
}

fn longest_len(logs: &Vec<ReplicaLog>) -> (len: usize)
    ensures
        len == longest(log_views(logs@)),
{
    let ghost views = log_views(logs@);
    let mut len: usize = 0;
    let mut i: usize = 0;
    while i < logs.len()
        invariant
            i <= logs@.len(),
            views == log_views(logs@),
            views.len() == logs@.len(),
            len == longest(views.take(i as int)),
        decreases logs@.len() - i,
    {
        assert(views.take(i + 1).drop_last() =~= views.take(i as int));
        assert(views.take(i + 1).last() == logs@[i as int]@);
        if logs[i].messages.len() > len {
            len = logs[i].messages.len();
        }
        i += 1;
    }
    assert(views.take(i as int) =~= views);
    len
}

/// Whether two byte strings are the same.
fn same_bytes(left: &Vec<u8>, right: &Vec<u8>) -> (same: bool)
    ensures
        same == (left@ == right@),
{
    if left.len() != right.len() {
        return false;
    }
    let mut i: usize = 0;
    while i < left.len()
        invariant
            i <= left@.len(),
            left@.len() == right@.len(),
            forall|j: int| 0 <= j < i ==> left@[j] == right@[j],
        decreases left@.len() - i,
    {
        if left[i] != right[i] {
            assert(left@[i as int] != right@[i as int]);
            return false;
        }
        i += 1;
    }
    assert(left@ =~= right@);
    true
}

/// Whether two logs agree on their first `len` messages.
pub open spec fn agree(left: LogView, right: LogView, len: nat) -> bool {
    left.messages.take(len as int) == right.messages.take(len as int)
}

fn logs_agree(left: &ReplicaLog, right: &ReplicaLog, len: usize) -> (same: bool)
    requires
        len <= left.messages@.len(),
        len <= right.messages@.len(),
    ensures
        same == agree(left@, right@, len as nat),
{
    let ghost lefts = left@.messages.take(len as int);
    let ghost rights = right@.messages.take(len as int);
    let mut i: usize = 0;
    while i < len
        invariant
            i <= len,
            len <= left.messages@.len(),
            len <= right.messages@.len(),
            lefts == left@.messages.take(len as int),
            rights == right@.messages.take(len as int),
            forall|j: int| 0 <= j < i ==> lefts[j] == rights[j],
        decreases len - i,
    {
        assert(lefts[i as int] == left.messages@[i as int]@);
        assert(rights[i as int] == right.messages@[i as int]@);
        if left.messages[i].offset != right.messages[i].offset || !same_bytes(
            &left.messages[i].user_headers,
            &right.messages[i].user_headers,
        ) {
            assert(lefts[i as int] != rights[i as int]);
            return false;
        }
        i += 1;
    }
    assert(lefts =~= rights);
    true
}

// ---------------------------------------------------------------------------
// Violations
// ---------------------------------------------------------------------------

/// What a run must not leave behind.
#[derive(Debug, Clone, Copy, PartialEq, Eq, Structural)]
pub enum Violation {
    /// A replica committed a key twice, at these places of its log.
    KeyTwice { replica: u8, first: usize, second: usize },
    /// A replica that does not lag lost acknowledged keys: the smallest of them
    /// is at this place of the list.
    KeyLost { replica: u8, acked: usize },
    /// A replica reads a gap in its committed offsets after this place.
    Gap { replica: u8, after: usize },
    /// Two replicas diverge in their committed messages.
    Divergence { left: u8, right: u8 },
}

/// The first place whose key came before, with the place it came at.
pub open spec fn first_repeat(keys: Seq<Option<Seq<char>>>) -> Option<(int, int)>
    decreases keys.len(),
{
    if keys.len() == 0 {
        None
    } else {
        match first_repeat(keys.drop_last()) {
            Some(places) => Some(places),
            None => if keys.last() is Some && exists|i: int|
                0 <= i < keys.len() - 1 && #[trigger] keys[i] == keys.last() {
                Some(
                    (
                        choose|i: int| 0 <= i < keys.len() - 1 && #[trigger] keys[i]
                            == keys.last(),
                        keys.len() - 1,
                    ),
                )
            } else {
                None
            },
        }
    }
}

/// No place repeats a key exactly when the keys are distinct, and the places
/// found hold one key.
pub proof fn lemma_first_repeat(keys: Seq<Option<Seq<char>>>)
    ensures
        first_repeat(keys) is None <==> forall|i: int, j: int|
            0 <= i < j < keys.len() && #[trigger] keys[j] is Some ==> #[trigger] keys[i] != keys[j],
        first_repeat(keys) matches Some((first, second)) ==> 0 <= first < second < keys.len()
            && keys[second] is Some && keys[first] == keys[second],
    decreases keys.len(),
{
    if keys.len() > 0 {
        let front = keys.drop_last();
        lemma_first_repeat(front);
        match first_repeat(front) {
            Some((first, second)) => {
                assert(front[first] == keys[first] && front[second] == keys[second]);
            },
            None => {
                if first_repeat(keys) is None {
                    assert forall|i: int, j: int|
                        0 <= i < j < keys.len() && #[trigger] keys[j] is Some implies
                    #[trigger] keys[i] != keys[j] by {
                        if j < front.len() {
                            assert(front[i] == keys[i] && front[j] == keys[j]);
                        }
                    }
                }
            },
        }
    }
}

proof fn lemma_first_repeat_stays(keys: Seq<Option<Seq<char>>>, n: int)
    requires
        0 <= n <= keys.len(),
        first_repeat(keys.take(n)) is Some,
    ensures
        first_repeat(keys) == first_repeat(keys.take(n)),
    decreases keys.len() - n,
{
    if n < keys.len() {
        assert(keys.take(n + 1).drop_last() =~= keys.take(n));
        lemma_first_repeat_stays(keys, n + 1);
    } else {
        assert(keys.take(n) =~= keys);
    }
}

/// Whether `keys` hold the text `key`.
pub open spec fn holds_key(keys: Seq<Option<Seq<char>>>, key: Seq<char>) -> bool {
    exists|i: int| 0 <= i < keys.len() && #[trigger] keys[i] == Some(key)
}

/// Whether `left` comes before `right` byte by byte, a prefix first.
pub open spec fn bytes_before(left: Seq<u8>, right: Seq<u8>) -> bool
    decreases left.len(),
{
    if right.len() == 0 {
        false
    } else if left.len() == 0 {
        true
    } else if left[0] != right[0] {
        left[0] < right[0]
    } else {
        bytes_before(left.drop_first(), right.drop_first())
    }
}

/// Whether the text `left` comes before `right`: texts are ordered by their
/// bytes.
pub open spec fn text_before(left: Seq<char>, right: Seq<char>) -> bool {
    bytes_before(vstd::utf8::encode_utf8(left), vstd::utf8::encode_utf8(right))
}

/// The place of the smallest of `acked` that `keys` do not hold, the first
/// such place where it is listed more than once.
pub open spec fn smallest_lost(keys: Seq<Option<Seq<char>>>, acked: Seq<Seq<char>>) -> Option<int>
    decreases acked.len(),
{
    if acked.len() == 0 {
        None
    } else {
        let last = acked.len() - 1;
        match smallest_lost(keys, acked.drop_last()) {
            Some(at) => if !holds_key(keys, acked[last]) && text_before(acked[last], acked[at]) {
                Some(last)
            } else {
                Some(at)
            },
            None => if holds_key(keys, acked[last]) {
                None
            } else {
                Some(last)
            },
        }
    }
}

proof fn lemma_bytes_before_is_an_order(a: Seq<u8>, b: Seq<u8>, c: Seq<u8>)
    ensures
        !bytes_before(a, a),
        bytes_before(a, b) && bytes_before(b, c) ==> bytes_before(a, c),
    decreases a.len(),
{
    if a.len() > 0 {
        if b.len() > 0 && c.len() > 0 {
            lemma_bytes_before_is_an_order(a.drop_first(), b.drop_first(), c.drop_first());
        } else {
            lemma_bytes_before_is_an_order(a.drop_first(), a.drop_first(), a.drop_first());
        }
    }
}

/// The lost key that is named is lost, and no lost key comes before it; none is
/// named exactly when none is lost.
pub proof fn lemma_smallest_lost(keys: Seq<Option<Seq<char>>>, acked: Seq<Seq<char>>)
    ensures
        match smallest_lost(keys, acked) {
            Some(at) => {
                &&& 0 <= at < acked.len()
                &&& !holds_key(keys, acked[at])
                &&& forall|k: int|
                    0 <= k < acked.len() && !holds_key(keys, #[trigger] acked[k]) ==> !text_before(
                        acked[k],
                        acked[at],
                    )
                &&& forall|k: int|
                    0 <= k < at && !holds_key(keys, #[trigger] acked[k]) ==> acked[k] != acked[at]
            },
            None => forall|k: int|
                0 <= k < acked.len() ==> holds_key(keys, #[trigger] acked[k]),
        },
    decreases acked.len(),
{
    if acked.len() > 0 {
        let front = acked.drop_last();
        let last = acked.len() - 1;
        lemma_smallest_lost(keys, front);
        match smallest_lost(keys, acked) {
            Some(at) => {
                assert forall|k: int|
                    0 <= k < at && !holds_key(keys, #[trigger] acked[k]) implies acked[k]
                    != acked[at] by {
                    assert(front[k] == acked[k]);
                    if at == last {
                        if let Some(earlier) = smallest_lost(keys, front) {
                            assert(!text_before(front[k], front[earlier]));
                        }
                    } else {
                        assert(front[at] == acked[at]);
                    }
                }
                assert forall|k: int|
                    0 <= k < acked.len() && !holds_key(
                        keys,
                        #[trigger] acked[k],
                    ) implies !text_before(acked[k], acked[at]) by {
                    lemma_bytes_before_is_an_order(
                        vstd::utf8::encode_utf8(acked[k]),
                        vstd::utf8::encode_utf8(acked[at]),
                        vstd::utf8::encode_utf8(acked[at]),
                    );
                    if k < last {
                        assert(front[k] == acked[k]);
                        if at == last {
                            if let Some(earlier) = smallest_lost(keys, front) {
                                lemma_bytes_before_is_an_order(
                                    vstd::utf8::encode_utf8(acked[k]),
                                    vstd::utf8::encode_utf8(acked[last]),
                                    vstd::utf8::encode_utf8(acked[earlier]),
                                );
                            }
                        }
                    }
                }
            },
            None => {
                assert forall|k: int| 0 <= k < acked.len() implies holds_key(
                    keys,
                    #[trigger] acked[k],
                ) by {
                    if k < last {
                        assert(front[k] == acked[k]);
                    }
                }
            },
        }
    }
}

/// Whether the text `left` comes before `right`.
fn comes_before(left: &String, right: &String) -> (before: bool)
    ensures
        before == text_before(left@, right@),
{
    let lefts = left.as_str().as_bytes();
    let rights = right.as_str().as_bytes();
    let mut i: usize = 0;
    assert(lefts@.skip(0) =~= lefts@ && rights@.skip(0) =~= rights@);
    while i < lefts.len() && i < rights.len() && lefts[i] == rights[i]
        invariant
            i <= lefts@.len(),
            i <= rights@.len(),
            bytes_before(lefts@, rights@) == bytes_before(
                lefts@.skip(i as int),
                rights@.skip(i as int),
            ),
        decreases lefts@.len() - i,
    {
        assert(lefts@.skip(i as int).drop_first() =~= lefts@.skip(i + 1));
        assert(rights@.skip(i as int).drop_first() =~= rights@.skip(i + 1));
        i += 1;
    }
    if i >= rights.len() {
        false
    } else if i >= lefts.len() {
        true
    } else {
        lefts[i] < rights[i]
    }
}

/// The texts of `acked`.
pub open spec fn texts(acked: Seq<String>) -> Seq<Seq<char>> {
    acked.map_values(|key: String| key@)
}

/// The place of `key` among the first `len` keys.
fn place_of(keys: &Vec<Option<String>>, key: &String, len: usize) -> (place: Option<usize>)
    requires
        len <= keys@.len(),
    ensures
        match place {
            Some(at) => at < len && key_view(keys@[at as int]) == Some(key@),
            None => forall|i: int|
                0 <= i < len ==> key_view(#[trigger] keys@[i]) != Some(key@),
        },
{
    let mut i: usize = 0;
    while i < len
        invariant
            i <= len,
            len <= keys@.len(),
            forall|j: int| 0 <= j < i ==> key_view(#[trigger] keys@[j]) != Some(key@),
        decreases len - i,
    {
        if let Some(text) = &keys[i] {
            if *text == *key {
                return Some(i);
            }
        }
        i += 1;
    }
    None
}

/// The first key of a log that repeats an earlier one.
fn find_repeat(log: &ReplicaLog) -> (repeat: Option<(usize, usize)>)
    ensures
        match repeat {
            Some((first, second)) => first_repeat(log@.keys) == Some((first as int, second as int)),
            None => first_repeat(log@.keys) is None,
        },
{
    let ghost keys = log@.keys;
    let mut i: usize = 0;
    while i < log.keys.len()
        invariant
            i <= log.keys@.len(),
            keys == log@.keys,
            keys.len() == log.keys@.len(),
            first_repeat(keys.take(i as int)) is None,
        decreases log.keys@.len() - i,
    {
        let ghost seen = keys.take(i + 1);
        assert(seen.drop_last() =~= keys.take(i as int));
        assert(seen.last() == key_view(log.keys@[i as int]));
        if let Some(key) = &log.keys[i] {
            match place_of(&log.keys, key, i) {
                Some(first) => {
                    proof {
                        assert(seen[first as int] == key_view(log.keys@[first as int]));
                        assert(seen[first as int] == seen.last());
                        lemma_first_repeat(keys.take(i as int));
                        lemma_first_repeat(seen);
                        let (found, last) = first_repeat(seen)->0;
                        assert(found == first) by {
                            let shorter = keys.take(i as int);
                            assert(shorter[found] == seen[found]);
                            assert(shorter[first as int] == seen[first as int]);
                        }
                        lemma_first_repeat_stays(keys, i + 1);
                    }
                    return Some((first, i));
                },
                None => {
                    assert forall|j: int| 0 <= j < i implies #[trigger] seen[j] != seen.last() by {
                        assert(seen[j] == key_view(log.keys@[j]));
                    }
                },
            }
        }
        i += 1;
    }
    assert(keys.take(i as int) =~= keys);
    None
}

/// The smallest acknowledged key that a log does not hold.
fn find_lost(log: &ReplicaLog, acked: &Vec<String>) -> (lost: Option<usize>)
    ensures
        match lost {
            Some(at) => smallest_lost(log@.keys, texts(acked@)) == Some(at as int),
            None => smallest_lost(log@.keys, texts(acked@)) is None,
        },
{
    let ghost keys = log@.keys;
    let ghost all = texts(acked@);
    let mut smallest: Option<usize> = None;
    let mut i: usize = 0;
    while i < acked.len()
        invariant
            i <= acked@.len(),
            keys == log@.keys,
            keys.len() == log.keys@.len(),
            all == texts(acked@),
            all.len() == acked@.len(),
            match smallest {
                Some(at) => at < i && smallest_lost(keys, all.take(i as int)) == Some(at as int),
                None => smallest_lost(keys, all.take(i as int)) is None,
            },
        decreases acked@.len() - i,
    {
        let ghost seen = all.take(i + 1);
        assert(seen.drop_last() =~= all.take(i as int));
        assert(seen[i as int] == acked@[i as int]@);
        match place_of(&log.keys, &acked[i], log.keys.len()) {
            Some(at) => {
                assert(keys[at as int] == key_view(log.keys@[at as int]));
                assert(holds_key(keys, seen[i as int]));
            },
            None => {
                assert forall|j: int| 0 <= j < keys.len() implies #[trigger] keys[j] != Some(
                    seen[i as int],
                ) by {
                    assert(keys[j] == key_view(log.keys@[j]));
                }
                assert(!holds_key(keys, seen[i as int]));
                match smallest {
                    Some(at) => {
                        assert(all.take(i as int)[at as int] == acked@[at as int]@);
                        assert(seen[at as int] == acked@[at as int]@);
                        if comes_before(&acked[i], &acked[at]) {
                            smallest = Some(i);
                        }
                    },
                    None => {
                        smallest = Some(i);
                    },
                }
            },
        }
        i += 1;
    }
    assert(all.take(i as int) =~= all);
    smallest
}

/// The first gap in the committed offsets of any log.
pub open spec fn gap_in(logs: Seq<LogView>) -> Option<Violation>
    decreases logs.len(),
{
    if logs.len() == 0 {
        None
    } else {
        match gap_in(logs.drop_last()) {
            Some(violation) => Some(violation),
            None => match first_gap(offsets(logs.last())) {
                Some(at) => Some(
                    Violation::Gap { replica: logs.last().replica, after: at as usize },
                ),
                None => None,
            },
        }
    }
}

/// The first two neighbours that disagree on their first `len` messages.
pub open spec fn divergence_in(logs: Seq<LogView>, len: nat) -> Option<Violation>
    decreases logs.len(),
{
    if logs.len() < 2 {
        None
    } else {
        match divergence_in(logs.drop_last(), len) {
            Some(violation) => Some(violation),
            None => if agree(logs[logs.len() - 2], logs.last(), len) {
                None
            } else {
                Some(
                    Violation::Divergence {
                        left: logs[logs.len() - 2].replica,
                        right: logs.last().replica,
                    },
                )
            },
        }
    }
}

/// What is wrong with the committed messages of `logs`: a gap in one of them,
/// else two that differ on their common prefix.
pub open spec fn disagreement(logs: Seq<LogView>) -> Option<Violation> {
    match gap_in(logs) {
        Some(violation) => Some(violation),
        None => divergence_in(logs, shortest(logs)),
    }
}

proof fn lemma_gap_stays(logs: Seq<LogView>, n: int)
    requires
        0 <= n <= logs.len(),
        gap_in(logs.take(n)) is Some,
    ensures
        gap_in(logs) == gap_in(logs.take(n)),
    decreases logs.len() - n,
{
    if n < logs.len() {
        assert(logs.take(n + 1).drop_last() =~= logs.take(n));
        lemma_gap_stays(logs, n + 1);
    } else {
        assert(logs.take(n) =~= logs);
    }
}

proof fn lemma_divergence_stays(logs: Seq<LogView>, len: nat, n: int)
    requires
        0 <= n <= logs.len(),
        divergence_in(logs.take(n), len) is Some,
    ensures
        divergence_in(logs, len) == divergence_in(logs.take(n), len),
    decreases logs.len() - n,
{
    if n < logs.len() {
        assert(logs.take(n + 1).drop_last() =~= logs.take(n));
        lemma_divergence_stays(logs, len, n + 1);
    } else {
        assert(logs.take(n) =~= logs);
    }
}

/// The first gap in the committed offsets of any log.
fn find_any_gap(logs: &Vec<ReplicaLog>) -> (violation: Option<Violation>)
    ensures
        violation == gap_in(log_views(logs@)),
{
    let ghost views = log_views(logs@);
    let mut i: usize = 0;
    while i < logs.len()
        invariant
            i <= logs@.len(),
            views == log_views(logs@),
            views.len() == logs@.len(),
            gap_in(views.take(i as int)) is None,
        decreases logs@.len() - i,
    {
        assert(views.take(i + 1).drop_last() =~= views.take(i as int));
        assert(views.take(i + 1).last() == logs@[i as int]@);
        if let Some(after) = find_gap(&logs[i]) {
            proof {
                lemma_gap_stays(views, i + 1);
            }
            return Some(Violation::Gap { replica: logs[i].replica, after });
        }
        i += 1;
    }
    assert(views.take(i as int) =~= views);
    None
}

/// What is wrong with the committed messages of the replicas, if anything: a
/// gap in a replica's offsets, or two replicas that differ on the prefix they
/// share. Not a dedup property, but the one the dedup properties stand on.
pub fn check_prefixes_agree(logs: &Vec<ReplicaLog>) -> (violation: Option<Violation>)
    requires
        logs@.len() > 0,
    ensures
        violation == disagreement(log_views(logs@)),
        violation is None ==> forall|i: int, p: int|
            #![trigger logs@[i].messages@[p]]
            0 <= i < logs@.len() && 0 <= p < logs@[i].messages@.len()
                ==> logs@[i].messages@[p].offset == logs@[i].messages@[0].offset + p,
        violation is None ==> forall|i: int, j: int, p: int|
            #![trigger logs@[i].messages@[p], logs@[j].messages@[p]]
            0 <= i < logs@.len() && 0 <= j < logs@.len() && 0 <= p && (forall|k: int|
                0 <= k < logs@.len() ==> p < (#[trigger] logs@[k]).messages@.len()) ==> {
                &&& logs@[i].messages@[p].offset == logs@[j].messages@[p].offset
                &&& logs@[i].messages@[p].user_headers@ == logs@[j].messages@[p].user_headers@
            },
        violation matches Some(Violation::Divergence { left, right }) ==> exists|
            i: int,
            j: int,
            p: int,
        |
            #![trigger logs@[i].messages@[p], logs@[j].messages@[p]]
            {
                &&& 0 <= i < logs@.len()
                &&& 0 <= j < logs@.len()
                &&& logs@[i].replica == left
                &&& logs@[j].replica == right
                &&& 0 <= p
                &&& forall|k: int| 0 <= k < logs@.len() ==> p < (#[trigger] logs@[k]).messages@.len()
                &&& logs@[i].messages@[p].offset != logs@[j].messages@[p].offset
                    || logs@[i].messages@[p].user_headers@ != logs@[j].messages@[p].user_headers@
            },
        violation matches Some(Violation::Gap { replica, after }) ==> exists|i: int|
            {
                &&& 0 <= i < logs@.len()
                &&& (#[trigger] logs@[i]).replica == replica
                &&& after + 1 < logs@[i].messages@.len()
                &&& logs@[i].messages@[after + 1].offset != logs@[i].messages@[after as int].offset + 1
            },
{
    proof {
        audit_laws::lemma_verdict_on_held_logs(logs@);
    }
    find_disagreement(logs)
}

fn find_disagreement(logs: &Vec<ReplicaLog>) -> (violation: Option<Violation>)
    ensures
        violation == disagreement(log_views(logs@)),
{
    let ghost views = log_views(logs@);
    if let Some(violation) = find_any_gap(logs) {
        return Some(violation);
    }
    let len = shortest_len(logs);
    proof {
        lemma_shortest(views);
    }
    if logs.len() < 2 {
        return None;
    }
    let mut i: usize = 1;
    assert(views.take(1).len() < 2);
    while i < logs.len()
        invariant
            1 <= i <= logs@.len(),
            views == log_views(logs@),
            views.len() == logs@.len(),
            gap_in(views) is None,
            len == shortest(views),
            forall|j: int|
                0 <= j < views.len() ==> shortest(views) <= (#[trigger] views[j]).messages.len(),
            divergence_in(views.take(i as int), len as nat) is None,
        decreases logs@.len() - i,
    {
        let ghost seen = views.take(i + 1);
        assert(seen.drop_last() =~= views.take(i as int));
        assert(seen.last() == logs@[i as int]@ && seen[i - 1] == logs@[i - 1]@);
        assert(views[i as int].messages.len() == logs@[i as int].messages@.len());
        assert(views[i - 1].messages.len() == logs@[i - 1].messages@.len());
        if !logs_agree(&logs[i - 1], &logs[i], len) {
            proof {
                lemma_divergence_stays(views, len as nat, i + 1);
            }
            return Some(
                Violation::Divergence { left: logs[i - 1].replica, right: logs[i].replica },
            );
        }
        i += 1;
    }
    assert(views.take(i as int) =~= views);
    None
}

/// What is wrong with one log, if anything: a key committed twice, or, where
/// the log does not lag, an acknowledged key that it does not hold.
pub open spec fn log_violation(
    log: LogView,
    acked: Seq<Seq<char>>,
    longest_len: nat,
) -> Option<Violation> {
    match first_repeat(log.keys) {
        Some((first, second)) => Some(
            Violation::KeyTwice {
                replica: log.replica,
                first: first as usize,
                second: second as usize,
            },
        ),
        None => if log.messages.len() < longest_len {
            None
        } else {
            match smallest_lost(log.keys, acked) {
                Some(at) => Some(
                    Violation::KeyLost { replica: log.replica, acked: at as usize },
                ),
                None => None,
            }
        },
    }
}

/// What is wrong with the first log that has something wrong.
pub open spec fn key_violation(
    logs: Seq<LogView>,
    acked: Seq<Seq<char>>,
    longest_len: nat,
) -> Option<Violation>
    decreases logs.len(),
{
    if logs.len() == 0 {
        None
    } else {
        match key_violation(logs.drop_last(), acked, longest_len) {
            Some(violation) => Some(violation),
            None => log_violation(logs.last(), acked, longest_len),
        }
    }
}

proof fn lemma_key_violation_stays(
    logs: Seq<LogView>,
    acked: Seq<Seq<char>>,
    longest_len: nat,
    n: int,
)
    requires
        0 <= n <= logs.len(),
        key_violation(logs.take(n), acked, longest_len) is Some,
    ensures
        key_violation(logs, acked, longest_len) == key_violation(
            logs.take(n),
            acked,
            longest_len,
        ),
    decreases logs.len() - n,
{
    if n < logs.len() {
        assert(logs.take(n + 1).drop_last() =~= logs.take(n));
        lemma_key_violation_stays(logs, acked, longest_len, n + 1);
    } else {
        assert(logs.take(n) =~= logs);
    }
}

/// What a run left behind that it must not, if anything: in the first replica
/// with something wrong, a key committed twice or an acknowledged key lost;
/// else what is wrong with the logs as such. Of several lost keys the smallest
/// is named. A replica whose log is shorter than the longest lags, and may miss
/// acknowledged keys.
pub fn check_invariants(logs: &Vec<ReplicaLog>, acked: &Vec<String>) -> (violation: Option<
    Violation,
>)
    requires
        logs@.len() > 0,
    ensures
        violation == match key_violation(
            log_views(logs@),
            texts(acked@),
            longest(log_views(logs@)),
        ) {
            Some(found) => Some(found),
            None => disagreement(log_views(logs@)),
        },
        violation is None ==> forall|i: int, p: int|
            #![trigger logs@[i].messages@[p]]
            0 <= i < logs@.len() && 0 <= p < logs@[i].messages@.len()
                ==> logs@[i].messages@[p].offset == logs@[i].messages@[0].offset + p,
        violation is None ==> forall|i: int, j: int, p: int|
            #![trigger logs@[i].messages@[p], logs@[j].messages@[p]]
            0 <= i < logs@.len() && 0 <= j < logs@.len() && 0 <= p && (forall|k: int|
                0 <= k < logs@.len() ==> p < (#[trigger] logs@[k]).messages@.len()) ==> {
                &&& logs@[i].messages@[p].offset == logs@[j].messages@[p].offset
                &&& logs@[i].messages@[p].user_headers@ == logs@[j].messages@[p].user_headers@
            },
        violation matches Some(Violation::Divergence { left, right }) ==> exists|
            i: int,
            j: int,
            p: int,
        |
            #![trigger logs@[i].messages@[p], logs@[j].messages@[p]]
            {
                &&& 0 <= i < logs@.len()
                &&& 0 <= j < logs@.len()
                &&& logs@[i].replica == left
                &&& logs@[j].replica == right
                &&& 0 <= p
                &&& forall|k: int| 0 <= k < logs@.len() ==> p < (#[trigger] logs@[k]).messages@.len()
                &&& logs@[i].messages@[p].offset != logs@[j].messages@[p].offset
                    || logs@[i].messages@[p].user_headers@ != logs@[j].messages@[p].user_headers@
            },
        violation matches Some(Violation::Gap { replica, after }) ==> exists|i: int|
            {
                &&& 0 <= i < logs@.len()
                &&& (#[trigger] logs@[i]).replica == replica
                &&& after + 1 < logs@[i].messages@.len()
                &&& logs@[i].messages@[after + 1].offset != logs@[i].messages@[after as int].offset + 1
            },
        violation is None ==> forall|i: int, a: int, b: int|
            #![trigger logs@[i].keys@[a], logs@[i].keys@[b]]
            0 <= i < logs@.len() && 0 <= a < b < logs@[i].keys@.len() && logs@[i].keys@[a] is Some
                && logs@[i].keys@[b] is Some ==> logs@[i].keys@[a]->0@ != logs@[i].keys@[b]->0@,
        violation is None ==> forall|i: int, k: int|
            0 <= i < logs@.len() && 0 <= k < acked@.len() && (forall|m: int|
                0 <= m < logs@.len() ==> (#[trigger] logs@[m]).messages@.len()
                    <= logs@[i].messages@.len()) ==> #[trigger] logs@[i]@.keys.contains(
                Some(acked@[k]@),
            ),
        violation matches Some(Violation::KeyTwice { replica, first, second }) ==> exists|i: int|
            {
                &&& 0 <= i < logs@.len()
                &&& (#[trigger] logs@[i]).replica == replica
                &&& first < second < logs@[i].keys@.len()
                &&& logs@[i].keys@[first as int] is Some
                &&& logs@[i].keys@[second as int] is Some
                &&& logs@[i].keys@[first as int]->0@ == logs@[i].keys@[second as int]->0@
            },
        violation matches Some(Violation::KeyLost { replica, acked: at }) ==> at < acked@.len()
            && exists|i: int|
            {
                &&& 0 <= i < logs@.len()
                &&& (#[trigger] logs@[i]).replica == replica
                &&& forall|m: int|
                    0 <= m < logs@.len() ==> (#[trigger] logs@[m]).messages@.len()
                        <= logs@[i].messages@.len()
                &&& forall|m: int|
                    0 <= m < logs@[i].keys@.len() && (#[trigger] logs@[i].keys@[m]) is Some
                        ==> logs@[i].keys@[m]->0@ != acked@[at as int]@
            },
{
    let violation = find_violation(logs, acked);
    proof {
        assert(acked@.len() == acked.len());
        audit_laws::lemma_verdict_on_held_logs(logs@);
        audit_laws::lemma_passing_verdict_on_held_keys(logs@, acked@);
        audit_laws::lemma_named_verdict_on_held_keys(logs@, acked@);
    }
    violation
}

fn find_violation(logs: &Vec<ReplicaLog>, acked: &Vec<String>) -> (violation: Option<Violation>)
    ensures
        violation == match key_violation(
            log_views(logs@),
            texts(acked@),
            longest(log_views(logs@)),
        ) {
            Some(found) => Some(found),
            None => disagreement(log_views(logs@)),
        },
{
    let ghost views = log_views(logs@);
    let ghost acked_texts = texts(acked@);
    let longest_log = longest_len(logs);
    let mut i: usize = 0;
    while i < logs.len()
        invariant
            i <= logs@.len(),
            views == log_views(logs@),
            views.len() == logs@.len(),
            acked_texts == texts(acked@),
            longest_log == longest(views),
            key_violation(views.take(i as int), acked_texts, longest_log as nat) is None,
        decreases logs@.len() - i,
    {
        let log = &logs[i];
        assert(views.take(i + 1).drop_last() =~= views.take(i as int));
        assert(views.take(i + 1).last() == log@);
        if let Some((first, second)) = find_repeat(log) {
            proof {
                lemma_key_violation_stays(views, acked_texts, longest_log as nat, i + 1);
            }
            return Some(Violation::KeyTwice { replica: log.replica, first, second });
        }
        if log.messages.len() >= longest_log {
            if let Some(at) = find_lost(log, acked) {
                proof {
                    lemma_key_violation_stays(views, acked_texts, longest_log as nat, i + 1);
                }
                return Some(Violation::KeyLost { replica: log.replica, acked: at });
            }
        }
        i += 1;
    }
    assert(views.take(i as int) =~= views);
    find_disagreement(logs)
}

// ---------------------------------------------------------------------------
// Soundness of the logs
// ---------------------------------------------------------------------------

/// The length of the shortest list.
pub open spec fn shortest_list(lists: Seq<Vec<(u64, u64)>>) -> nat
    decreases lists.len(),
{
    if lists.len() == 0 {
        0
    } else if lists.len() == 1 {
        lists[0]@.len()
    } else {
        let before = shortest_list(lists.drop_last());
        if lists.last()@.len() < before {
            lists.last()@.len()
        } else {
            before
        }
    }
}

/// Whether neighbouring lists agree on their first `len` items.
pub open spec fn lists_agree(lists: Seq<Vec<(u64, u64)>>, len: nat) -> bool {
    forall|i: int|
        0 < i < lists.len() ==> lists[i - 1]@.take(len as int) == (#[trigger] lists[i])@.take(
            len as int,
        )
}

proof fn lemma_shortest_list(lists: Seq<Vec<(u64, u64)>>)
    ensures
        forall|i: int| 0 <= i < lists.len() ==> shortest_list(lists) <= (#[trigger] lists[i])@.len(),
    decreases lists.len(),
{
    if lists.len() > 1 {
        let front = lists.drop_last();
        lemma_shortest_list(front);
        assert forall|i: int| 0 <= i < lists.len() implies shortest_list(lists) <= (
        #[trigger] lists[i])@.len() by {
            if i < front.len() {
                assert(front[i] == lists[i]);
            }
        }
    }
}

fn shortest_list_len(lists: &Vec<Vec<(u64, u64)>>) -> (len: usize)
    ensures
        len == shortest_list(lists@),
{
    if lists.len() == 0 {
        return 0;
    }
    let mut len: usize = lists[0].len();
    let mut i: usize = 1;
    while i < lists.len()
        invariant
            1 <= i <= lists@.len(),
            len == shortest_list(lists@.take(i as int)),
        decreases lists@.len() - i,
    {
        assert(lists@.take(i + 1).drop_last() =~= lists@.take(i as int));
        if lists[i].len() < len {
            len = lists[i].len();
        }
        i += 1;
    }
    assert(lists@.take(i as int) =~= lists@);
    len
}

fn stamps_agree(left: &Vec<(u64, u64)>, right: &Vec<(u64, u64)>, len: usize) -> (same: bool)
    requires
        len <= left@.len(),
        len <= right@.len(),
    ensures
        same == (left@.take(len as int) == right@.take(len as int)),
{
    let ghost lefts = left@.take(len as int);
    let ghost rights = right@.take(len as int);
    let mut i: usize = 0;
    while i < len
        invariant
            i <= len,
            len <= left@.len(),
            len <= right@.len(),
            lefts == left@.take(len as int),
            rights == right@.take(len as int),
            forall|j: int| 0 <= j < i ==> lefts[j] == rights[j],
        decreases len - i,
    {
        if left[i].0 != right[i].0 || left[i].1 != right[i].1 {
            assert(lefts[i as int] != rights[i as int]);
            return false;
        }
        i += 1;
    }
    assert(lefts =~= rights);
    true
}

/// Whether every replica reads a gap-free committed log that agrees with its
/// peers, in its messages and in their batch timestamps: a body that diverged
/// under the same op keeps its messages and differs only there.
pub fn logs_are_sound(logs: &Vec<ReplicaLog>, stamps: &Vec<Vec<(u64, u64)>>) -> (sound: bool)
    ensures
        sound == {
            &&& disagreement(log_views(logs@)) is None
            &&& lists_agree(stamps@, shortest_list(stamps@))
        },
        sound <==> {
            &&& forall|i: int, p: int|
                #![trigger logs@[i].messages@[p]]
                0 <= i < logs@.len() && 0 <= p < logs@[i].messages@.len()
                    ==> logs@[i].messages@[p].offset == logs@[i].messages@[0].offset + p
            &&& forall|i: int, j: int, p: int|
                #![trigger logs@[i].messages@[p], logs@[j].messages@[p]]
                0 <= i < logs@.len() && 0 <= j < logs@.len() && 0 <= p && (forall|k: int|
                    0 <= k < logs@.len() ==> p < (#[trigger] logs@[k]).messages@.len()) ==> {
                    &&& logs@[i].messages@[p].offset == logs@[j].messages@[p].offset
                    &&& logs@[i].messages@[p].user_headers@ == logs@[j].messages@[p].user_headers@
                }
            &&& forall|i: int, j: int, p: int|
                #![trigger stamps@[i]@[p], stamps@[j]@[p]]
                0 <= i < stamps@.len() && 0 <= j < stamps@.len() && 0 <= p && (forall|k: int|
                    0 <= k < stamps@.len() ==> p < (#[trigger] stamps@[k])@.len()) ==> stamps@[i]@[p]
                    == stamps@[j]@[p]
        },
{
    let sound = find_disagreement(logs).is_none() && all_stamps_agree(stamps);
    proof {
        audit_laws::lemma_verdict_on_held_logs(logs@);
        audit_laws::lemma_lists_agree_meaning(stamps@);
    }
    sound
}

fn all_stamps_agree(stamps: &Vec<Vec<(u64, u64)>>) -> (same: bool)
    ensures
        same == lists_agree(stamps@, shortest_list(stamps@)),
{
    let len = shortest_list_len(stamps);
    proof {
        lemma_shortest_list(stamps@);
    }
    if stamps.len() < 2 {
        return true;
    }
    let mut i: usize = 1;
    while i < stamps.len()
        invariant
            1 <= i <= stamps@.len(),
            len == shortest_list(stamps@),
            forall|j: int|
                0 <= j < stamps@.len() ==> shortest_list(stamps@) <= (#[trigger] stamps@[j])@.len(),
            forall|j: int|
                0 < j < i ==> stamps@[j - 1]@.take(len as int) == (
                #[trigger] stamps@[j])@.take(len as int),
        decreases stamps@.len() - i,
    {
        assert(shortest_list(stamps@) <= stamps@[i - 1]@.len());
        if !stamps_agree(&stamps[i - 1], &stamps[i], len) {
            return false;
        }
        i += 1;
    }
    true
}

// ---------------------------------------------------------------------------
// Indexes
// ---------------------------------------------------------------------------

/// How far a replica has committed, and the fingerprint of its index.
#[derive(Debug, Clone, Copy, PartialEq, Eq, Structural)]
pub struct IndexState {
    pub replica: u8,
    pub commit: u64,
    pub fingerprint: u128,
}

/// The largest commit of `states`.
pub open spec fn newest_commit(states: Seq<IndexState>) -> u64
    decreases states.len(),
{
    if states.len() == 0 {
        0
    } else {
        let before = newest_commit(states.drop_last());
        if states.last().commit > before {
            states.last().commit
        } else {
            before
        }
    }
}

/// The first of `states` that is at `commit`.
pub open spec fn first_at(states: Seq<IndexState>, commit: u64) -> Option<IndexState>
    decreases states.len(),
{
    if states.len() == 0 {
        None
    } else if states[0].commit == commit {
        Some(states[0])
    } else {
        first_at(states.drop_first(), commit)
    }
}

/// The first replica at `commit` whose fingerprint is not `fingerprint`.
pub open spec fn first_other(
    states: Seq<IndexState>,
    commit: u64,
    fingerprint: u128,
) -> Option<u8>
    decreases states.len(),
{
    if states.len() == 0 {
        None
    } else if states[0].commit == commit && states[0].fingerprint != fingerprint {
        Some(states[0].replica)
    } else {
        first_other(states.drop_first(), commit, fingerprint)
    }
}

/// The first replica that has committed as far as any and holds another index
/// than the first such replica.
pub open spec fn odd_index(states: Seq<IndexState>) -> Option<u8> {
    let commit = newest_commit(states);
    match first_at(states, commit) {
        Some(reference) => first_other(states, commit, reference.fingerprint),
        None => None,
    }
}

/// No odd index is found exactly when every two replicas that have committed
/// as far as any hold one index.
pub proof fn lemma_no_odd_index(states: Seq<IndexState>)
    ensures
        odd_index(states) is None <==> forall|i: int, j: int|
            0 <= i < states.len() && 0 <= j < states.len() && (#[trigger] states[i]).commit
                == newest_commit(states) && (#[trigger] states[j]).commit == newest_commit(states)
                ==> states[i].fingerprint == states[j].fingerprint,
{
    let commit = newest_commit(states);
    lemma_first_at(states, commit);
    match first_at(states, commit) {
        Some(reference) => {
            lemma_first_other(states, commit, reference.fingerprint);
            let r = choose|i: int| 0 <= i < states.len() && states[i] == reference;
            assert(states[r].commit == commit);
        },
        None => {},
    }
}

proof fn lemma_first_at(states: Seq<IndexState>, commit: u64)
    ensures
        match first_at(states, commit) {
            Some(found) => states.contains(found) && found.commit == commit,
            None => forall|i: int| 0 <= i < states.len() ==> (#[trigger] states[i]).commit
                != commit,
        },
    decreases states.len(),
{
    if states.len() > 0 {
        let rest = states.drop_first();
        lemma_first_at(rest, commit);
        if states[0].commit != commit {
            match first_at(rest, commit) {
                Some(found) => {
                    let i = choose|i: int| 0 <= i < rest.len() && rest[i] == found;
                    assert(states[i + 1] == found);
                },
                None => {
                    assert forall|i: int| 0 <= i < states.len() implies (
                    #[trigger] states[i]).commit != commit by {
                        if i > 0 {
                            assert(rest[i - 1] == states[i]);
                        }
                    }
                },
            }
        } else {
            assert(states.contains(states[0]));
        }
    }
}

proof fn lemma_first_other(states: Seq<IndexState>, commit: u64, fingerprint: u128)
    ensures
        first_other(states, commit, fingerprint) is None <==> forall|i: int|
            0 <= i < states.len() && (#[trigger] states[i]).commit == commit
                ==> states[i].fingerprint == fingerprint,
    decreases states.len(),
{
    if states.len() > 0 {
        let rest = states.drop_first();
        lemma_first_other(rest, commit, fingerprint);
        if first_other(states, commit, fingerprint) is None {
            assert forall|i: int|
                0 <= i < states.len() && (#[trigger] states[i]).commit
                    == commit implies states[i].fingerprint == fingerprint by {
                if i > 0 {
                    assert(rest[i - 1] == states[i]);
                }
            }
        } else if !(states[0].commit == commit && states[0].fingerprint != fingerprint) {
            let i = choose|i: int|
                0 <= i < rest.len() && (#[trigger] rest[i]).commit == commit && rest[i].fingerprint
                    != fingerprint;
            assert(states[i + 1] == rest[i]);
        }
    }
}

/// The first replica that holds a different dedup index, if any. Once the
/// group has quiesced, every replica holds the same log and so must hold the
/// same index; a replica still catching up holds a shorter log, so only
/// replicas at the newest commit must agree.
pub fn check_indexes_agree(states: &Vec<IndexState>) -> (odd: Option<u8>)
    requires
        states@.len() > 0,
    ensures
        odd == odd_index(states@),
        odd is None <==> forall|i: int, j: int|
            #![trigger states@[i], states@[j]]
            0 <= i < states@.len() && 0 <= j < states@.len() && (forall|k: int|
                0 <= k < states@.len() ==> (#[trigger] states@[k]).commit <= states@[i].commit
                    && states@[k].commit <= states@[j].commit) ==> states@[i].fingerprint
                == states@[j].fingerprint,
        odd matches Some(replica) ==> exists|i: int, j: int|
            #![trigger states@[i], states@[j]]
            {
                &&& 0 <= i < j < states@.len()
                &&& states@[j].replica == replica
                &&& states@[i].fingerprint != states@[j].fingerprint
                &&& forall|k: int|
                    0 <= k < states@.len() ==> (#[trigger] states@[k]).commit <= states@[i].commit
                        && states@[k].commit <= states@[j].commit
            },
{
    let odd = find_odd_index(states);
    proof {
        audit_laws::lemma_odd_index_meaning(states@);
    }
    odd
}

fn find_odd_index(states: &Vec<IndexState>) -> (odd: Option<u8>)
    ensures
        odd == odd_index(states@),
{
    let ghost all = states@;
    let mut commit: u64 = 0;
    let mut i: usize = 0;
    while i < states.len()
        invariant
            i <= states@.len(),
            all == states@,
            commit == newest_commit(all.take(i as int)),
        decreases states@.len() - i,
    {
        assert(all.take(i + 1).drop_last() =~= all.take(i as int));
        if states[i].commit > commit {
            commit = states[i].commit;
        }
        i += 1;
    }
    assert(all.take(i as int) =~= all);
    let mut at: usize = 0;
    assert(all.skip(0) =~= all);
    while at < states.len() && states[at].commit != commit
        invariant
            at <= states@.len(),
            all == states@,
            first_at(all, commit) == first_at(all.skip(at as int), commit),
        decreases states@.len() - at,
    {
        assert(all.skip(at as int).drop_first() =~= all.skip(at + 1));
        at += 1;
    }
    if at == states.len() {
        assert(all.skip(at as int).len() == 0);
        return None;
    }
    let fingerprint = states[at].fingerprint;
    let mut next: usize = 0;
    while next < states.len()
        invariant
            next <= states@.len(),
            all == states@,
            commit == newest_commit(all),
            first_at(all, commit) matches Some(found) && found.fingerprint == fingerprint,
            first_other(all, commit, fingerprint) == first_other(
                all.skip(next as int),
                commit,
                fingerprint,
            ),
        decreases states@.len() - next,
    {
        assert(all.skip(next as int).drop_first() =~= all.skip(next + 1));
        if states[next].commit == commit && states[next].fingerprint != fingerprint {
            return Some(states[next].replica);
        }
        next += 1;
    }
    assert(all.skip(next as int).len() == 0);
    None
}

/// The newest of the views that the live replicas are in.
pub fn latest_view(views: &Vec<u32>) -> (latest: u32)
    requires
        views@.len() > 0,
    ensures
        views@.contains(latest),
        forall|i: int| 0 <= i < views@.len() ==> #[trigger] views@[i] <= latest,
{
    let mut latest: u32 = views[0];
    let mut i: usize = 1;
    assert(views@.contains(views@[0]));
    while i < views.len()
        invariant
            1 <= i <= views@.len(),
            views@.contains(latest),
            forall|j: int| 0 <= j < i ==> #[trigger] views@[j] <= latest,
        decreases views@.len() - i,
    {
        if views[i] > latest {
            latest = views[i];
            assert(views@.contains(views@[i as int]));
        }
        i += 1;
    }
    latest
}

/// A run that passes leaves no key committed twice, loses no acknowledged key
/// in a log that does not lag, and leaves logs that agree.
pub proof fn lemma_no_violation_means_each_key_once(
    logs: Seq<LogView>,
    acked: Seq<Seq<char>>,
    i: int,
)
    requires
        key_violation(logs, acked, longest(logs)) is None,
        0 <= i < logs.len(),
    ensures
        forall|a: int, b: int|
            0 <= a < b < logs[i].keys.len() && #[trigger] logs[i].keys[b] is Some
                ==> #[trigger] logs[i].keys[a] != logs[i].keys[b],
        logs[i].messages.len() >= longest(logs) ==> forall|k: int|
            0 <= k < acked.len() ==> holds_key(logs[i].keys, #[trigger] acked[k]),
{
    lemma_each_log_passes(logs, acked, longest(logs), i);
    lemma_first_repeat(logs[i].keys);
    if logs[i].messages.len() >= longest(logs) {
        lemma_smallest_lost(logs[i].keys, acked);
    }
}

/// When no log is found at fault, none has anything wrong.
pub proof fn lemma_each_log_passes(
    logs: Seq<LogView>,
    acked: Seq<Seq<char>>,
    longest_len: nat,
    i: int,
)
    requires
        key_violation(logs, acked, longest_len) is None,
        0 <= i < logs.len(),
    ensures
        log_violation(logs[i], acked, longest_len) is None,
    decreases logs.len(),
{
    if i < logs.len() - 1 {
        lemma_each_log_passes(logs.drop_last(), acked, longest_len, i);
    }
}

} // verus!
