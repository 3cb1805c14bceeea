//! What the verdicts on a group of replicas come to: which logs, keys and
//! indexes pass, and what a violation that is named points at.

use vstd::prelude::*;

use crate::audit;
use crate::audit::{CommittedMessage, IndexState, LogView, ReplicaLog, Violation};
use crate::policy;
use crate::user_headers;

verus! {

// ---------------------------------------------------------------------------
// Lengths
// ---------------------------------------------------------------------------

/// The shortest length is that of some log, and no log is shorter.
pub proof fn lemma_shortest_meaning(logs: Seq<LogView>)
    ensures
        forall|i: int|
            0 <= i < logs.len() ==> audit::shortest(logs) <= (#[trigger] logs[i]).messages.len(),
        logs.len() > 0 ==> exists|i: int|
            0 <= i < logs.len() && (#[trigger] logs[i]).messages.len() == audit::shortest(logs),
    decreases logs.len(),
{
    if logs.len() == 1 {
        assert(logs[0].messages.len() == audit::shortest(logs));
    } else if logs.len() > 1 {
        let front = logs.drop_last();
        let last = logs.len() - 1;
        lemma_shortest_meaning(front);
        assert forall|i: int| 0 <= i < logs.len() implies audit::shortest(logs) <= (
        #[trigger] logs[i]).messages.len() by {
            if i < front.len() {
                assert(front[i] == logs[i]);
            }
        }
        let m = choose|m: int|
            0 <= m < front.len() && (#[trigger] front[m]).messages.len() == audit::shortest(front);
        assert(logs[m] == front[m]);
        assert(logs[last].messages.len() == audit::shortest(logs) || logs[m].messages.len()
            == audit::shortest(logs));
    }
}

/// The longest length is that of some log, and no log is longer.
pub proof fn lemma_longest_meaning(logs: Seq<LogView>)
    ensures
        forall|i: int|
            0 <= i < logs.len() ==> (#[trigger] logs[i]).messages.len() <= audit::longest(logs),
        logs.len() > 0 ==> exists|i: int|
            0 <= i < logs.len() && (#[trigger] logs[i]).messages.len() == audit::longest(logs),
        logs.len() == 0 ==> audit::longest(logs) == 0,
    decreases logs.len(),
{
    if logs.len() > 0 {
        let front = logs.drop_last();
        let last = logs.len() - 1;
        lemma_longest_meaning(front);
        assert forall|i: int| 0 <= i < logs.len() implies (#[trigger] logs[i]).messages.len()
            <= audit::longest(logs) by {
            if i < front.len() {
                assert(front[i] == logs[i]);
            }
        }
        if front.len() > 0 {
            let m = choose|m: int|
                0 <= m < front.len() && (#[trigger] front[m]).messages.len() == audit::longest(
                    front,
                );
            assert(logs[m] == front[m]);
            assert(logs[last].messages.len() == audit::longest(logs) || logs[m].messages.len()
                == audit::longest(logs));
        } else {
            assert(logs[last].messages.len() == audit::longest(logs));
        }
    }
}

// ---------------------------------------------------------------------------
// Gaps
// ---------------------------------------------------------------------------

/// The gap that is found is one, and the offsets up to it go on by one.
pub proof fn lemma_first_gap_meaning(offsets: Seq<u64>)
    ensures
        match audit::first_gap(offsets) {
            Some(at) => {
                &&& 0 <= at < offsets.len() - 1
                &&& offsets[at + 1] != offsets[at] + 1
                &&& forall|i: int| 0 <= i <= at ==> #[trigger] offsets[i] == offsets[0] + i
            },
            None => forall|i: int|
                0 <= i < offsets.len() ==> #[trigger] offsets[i] == offsets[0] + i,
        },
    decreases offsets.len(),
{
    audit::lemma_no_gap(offsets);
    if offsets.len() >= 2 {
        let front = offsets.drop_last();
        lemma_first_gap_meaning(front);
        if let Some(at) = audit::first_gap(offsets) {
            assert forall|i: int| 0 <= i <= at implies #[trigger] offsets[i] == offsets[0] + i by {
                assert(front[i] == offsets[i]);
            }
        }
    }
}

/// No gap is found exactly when every log counts its offsets up by one.
proof fn lemma_gap_in_none(logs: Seq<LogView>)
    ensures
        audit::gap_in(logs) is None <==> forall|i: int|
            0 <= i < logs.len() ==> audit::first_gap(
                audit::offsets(#[trigger] logs[i]),
            ) is None,
    decreases logs.len(),
{
    if logs.len() > 0 {
        let front = logs.drop_last();
        lemma_gap_in_none(front);
        if audit::gap_in(logs) is None {
            assert forall|i: int| 0 <= i < logs.len() implies audit::first_gap(
                audit::offsets(#[trigger] logs[i]),
            ) is None by {
                if i < front.len() {
                    assert(front[i] == logs[i]);
                }
            }
        }
        if forall|i: int|
            0 <= i < logs.len() ==> audit::first_gap(audit::offsets(#[trigger] logs[i])) is None {
            assert forall|i: int| 0 <= i < front.len() implies audit::first_gap(
                audit::offsets(#[trigger] front[i]),
            ) is None by {
                assert(front[i] == logs[i]);
            }
            assert(logs[logs.len() - 1] == logs.last());
        }
    }
}

/// The log in which a gap is named.
proof fn lemma_gap_in_some(logs: Seq<LogView>) -> (g: int)
    requires
        audit::gap_in(logs) is Some,
    ensures
        0 <= g < logs.len(),
        audit::first_gap(audit::offsets(logs[g])) is Some,
        audit::gap_in(logs) == Some(
            Violation::Gap {
                replica: logs[g].replica,
                after: audit::first_gap(audit::offsets(logs[g]))->0 as usize,
            },
        ),
        forall|i: int|
            0 <= i < g ==> audit::first_gap(audit::offsets(#[trigger] logs[i])) is None,
    decreases logs.len(),
{
    let front = logs.drop_last();
    if audit::gap_in(front) is Some {
        let g = lemma_gap_in_some(front);
        assert forall|i: int| 0 <= i < g implies audit::first_gap(
            audit::offsets(#[trigger] logs[i]),
        ) is None by {
            assert(front[i] == logs[i]);
        }
        g
    } else {
        lemma_gap_in_none(front);
        assert forall|i: int| 0 <= i < logs.len() - 1 implies audit::first_gap(
            audit::offsets(#[trigger] logs[i]),
        ) is None by {
            assert(front[i] == logs[i]);
        }
        logs.len() - 1
    }
}

// ---------------------------------------------------------------------------
// Agreement
// ---------------------------------------------------------------------------

proof fn lemma_neighbours_agree(logs: Seq<LogView>, len: nat, m: int)
    requires
        audit::divergence_in(logs, len) is None,
        0 < m < logs.len(),
    ensures
        logs[m - 1].messages.take(len as int) == logs[m].messages.take(len as int),
    decreases logs.len(),
{
    if m < logs.len() - 1 {
        lemma_neighbours_agree(logs.drop_last(), len, m);
    }
}

proof fn lemma_all_agree(logs: Seq<LogView>, len: nat, i: int, j: int)
    requires
        audit::divergence_in(logs, len) is None,
        0 <= i <= j < logs.len(),
    ensures
        logs[i].messages.take(len as int) == logs[j].messages.take(len as int),
    decreases j - i,
{
    if i < j {
        lemma_all_agree(logs, len, i, j - 1);
        lemma_neighbours_agree(logs, len, j);
    }
}

/// The neighbours that are named as diverging.
proof fn lemma_divergence_some(logs: Seq<LogView>, len: nat) -> (m: int)
    requires
        audit::divergence_in(logs, len) is Some,
    ensures
        0 < m < logs.len(),
        logs[m - 1].messages.take(len as int) != logs[m].messages.take(len as int),
        audit::divergence_in(logs, len) == Some(
            Violation::Divergence { left: logs[m - 1].replica, right: logs[m].replica },
        ),
        forall|i: int|
            0 < i < m ==> logs[i - 1].messages.take(len as int) == (
            #[trigger] logs[i]).messages.take(len as int),
    decreases logs.len(),
{
    let front = logs.drop_last();
    if audit::divergence_in(front, len) is Some {
        let m = lemma_divergence_some(front, len);
        assert forall|i: int| 0 < i < m implies logs[i - 1].messages.take(len as int) == (
        #[trigger] logs[i]).messages.take(len as int) by {
            assert(front[i] == logs[i] && front[i - 1] == logs[i - 1]);
        }
        m
    } else {
        assert forall|i: int| 0 < i < logs.len() - 1 implies logs[i - 1].messages.take(len as int)
            == (#[trigger] logs[i]).messages.take(len as int) by {
            lemma_neighbours_agree(front, len, i);
            assert(front[i] == logs[i] && front[i - 1] == logs[i - 1]);
        }
        logs.len() - 1
    }
}

/// When nothing is found wrong with the logs, the offsets of every log count up
/// by one.
pub proof fn lemma_agreeing_logs_have_no_gap(logs: Seq<LogView>, i: int, p: int)
    requires
        audit::disagreement(logs) is None,
        0 <= i < logs.len(),
        0 <= p < logs[i].messages.len(),
    ensures
        logs[i].messages[p].offset == logs[i].messages[0].offset + p,
{
    lemma_gap_in_none(logs);
    let offsets = audit::offsets(logs[i]);
    audit::lemma_no_gap(offsets);
    assert(offsets[p] == offsets[0] + p);
}

/// When nothing is found wrong with the logs, every two of them hold the same
/// message at every place that all logs reach.
pub proof fn lemma_agreeing_logs_hold_the_same_messages(
    logs: Seq<LogView>,
    i: int,
    j: int,
    p: int,
)
    requires
        audit::disagreement(logs) is None,
        0 <= i < logs.len(),
        0 <= j < logs.len(),
        0 <= p,
        forall|k: int| 0 <= k < logs.len() ==> p < (#[trigger] logs[k]).messages.len(),
    ensures
        logs[i].messages[p].offset == logs[j].messages[p].offset,
        logs[i].messages[p].user_headers == logs[j].messages[p].user_headers,
{
    let len = audit::shortest(logs);
    lemma_shortest_meaning(logs);
    if i <= j {
        lemma_all_agree(logs, len, i, j);
    } else {
        lemma_all_agree(logs, len, j, i);
    }
    assert(logs[i].messages.take(len as int)[p] == logs[j].messages.take(len as int)[p]);
}

/// Logs that count their offsets up by one, and hold the same message wherever
/// all of them reach, are not found at fault.
pub proof fn lemma_sound_logs_are_not_accused(logs: Seq<LogView>)
    requires
        forall|i: int, p: int|
            #![trigger logs[i].messages[p]]
            0 <= i < logs.len() && 0 <= p < logs[i].messages.len() ==> logs[i].messages[p].offset
                == logs[i].messages[0].offset + p,
        forall|i: int, j: int, p: int|
            #![trigger logs[i].messages[p], logs[j].messages[p]]
            0 <= i < logs.len() && 0 <= j < logs.len() && 0 <= p && (forall|k: int|
                0 <= k < logs.len() ==> p < (#[trigger] logs[k]).messages.len())
                ==> logs[i].messages[p] == logs[j].messages[p],
    ensures
        audit::disagreement(logs) is None,
{
    lemma_gap_in_none(logs);
    assert forall|i: int| 0 <= i < logs.len() implies audit::first_gap(
        audit::offsets(#[trigger] logs[i]),
    ) is None by {
        let offsets = audit::offsets(logs[i]);
        audit::lemma_no_gap(offsets);
        assert forall|p: int| 0 <= p < offsets.len() implies #[trigger] offsets[p] == offsets[0]
            + p by {
            assert(logs[i].messages[p].offset == logs[i].messages[0].offset + p);
        }
    }
    let len = audit::shortest(logs);
    if audit::divergence_in(logs, len) is Some {
        let m = lemma_divergence_some(logs, len);
        lemma_shortest_meaning(logs);
        let lefts = logs[m - 1].messages.take(len as int);
        let rights = logs[m].messages.take(len as int);
        assert forall|p: int| 0 <= p < len implies lefts[p] == rights[p] by {
            assert(logs[m - 1].messages[p] == logs[m].messages[p]);
        }
        assert(lefts =~= rights);
    }
}

/// What is named as wrong with the logs is wrong. A gap is in the first log
/// that has one: its offsets count up by one as far as the place named, and not
/// past it. Else a divergence is between the first neighbours that hold
/// different messages at some place that all logs reach.
pub proof fn lemma_named_disagreement_is_one(logs: Seq<LogView>) -> (places: (int, int))
    requires
        audit::disagreement(logs) is Some,
        forall|i: int| 0 <= i < logs.len() ==> (#[trigger] logs[i]).messages.len() <= usize::MAX,
    ensures
        match audit::disagreement(logs)->0 {
            Violation::Gap { replica, after } => {
                let (g, at) = places;
                &&& 0 <= g < logs.len()
                &&& logs[g].replica == replica
                &&& after == at
                &&& 0 <= at < logs[g].messages.len() - 1
                &&& logs[g].messages[at + 1].offset != logs[g].messages[at].offset + 1
                &&& forall|p: int|
                    0 <= p <= at ==> (#[trigger] logs[g].messages[p]).offset
                        == logs[g].messages[0].offset + p
                &&& forall|i: int, p: int|
                    #![trigger logs[i].messages[p]]
                    0 <= i < g && 0 <= p < logs[i].messages.len() ==> logs[i].messages[p].offset
                        == logs[i].messages[0].offset + p
            },
            Violation::Divergence { left, right } => {
                let (m, p) = places;
                &&& 0 < m < logs.len()
                &&& logs[m - 1].replica == left
                &&& logs[m].replica == right
                &&& 0 <= p
                &&& forall|k: int| 0 <= k < logs.len() ==> p < (#[trigger] logs[k]).messages.len()
                &&& logs[m - 1].messages[p] != logs[m].messages[p]
                &&& forall|i: int, q: int|
                    #![trigger logs[i].messages[q]]
                    0 < i < m && 0 <= q && (forall|k: int|
                        0 <= k < logs.len() ==> q < (#[trigger] logs[k]).messages.len())
                        ==> logs[i - 1].messages[q] == logs[i].messages[q]
                &&& forall|i: int, q: int|
                    #![trigger logs[i].messages[q]]
                    0 <= i < logs.len() && 0 <= q < logs[i].messages.len()
                        ==> logs[i].messages[q].offset == logs[i].messages[0].offset + q
            },
            _ => false,
        },
{
    lemma_gap_in_none(logs);
    if audit::gap_in(logs) is Some {
        let g = lemma_gap_in_some(logs);
        let offsets = audit::offsets(logs[g]);
        lemma_first_gap_meaning(offsets);
        let at = audit::first_gap(offsets)->0;
        assert(offsets[at + 1] == logs[g].messages[at + 1].offset);
        assert(offsets[at] == logs[g].messages[at].offset);
        assert forall|p: int| 0 <= p <= at implies (#[trigger] logs[g].messages[p]).offset
            == logs[g].messages[0].offset + p by {
            assert(offsets[p] == offsets[0] + p);
        }
        assert forall|i: int, p: int|
            #![trigger logs[i].messages[p]]
            0 <= i < g && 0 <= p < logs[i].messages.len() implies logs[i].messages[p].offset
            == logs[i].messages[0].offset + p by {
            let earlier = audit::offsets(logs[i]);
            audit::lemma_no_gap(earlier);
            assert(earlier[p] == earlier[0] + p);
        }
        (g, at)
    } else {
        let len = audit::shortest(logs);
        let m = lemma_divergence_some(logs, len);
        lemma_shortest_meaning(logs);
        let s = choose|s: int| 0 <= s < logs.len() && (#[trigger] logs[s]).messages.len() == len;
        let lefts = logs[m - 1].messages.take(len as int);
        let rights = logs[m].messages.take(len as int);
        assert(exists|p: int| 0 <= p < len && lefts[p] != rights[p]) by {
            if forall|p: int| 0 <= p < len ==> lefts[p] == rights[p] {
                assert(lefts =~= rights);
            }
        }
        let p = choose|p: int| 0 <= p < len && lefts[p] != rights[p];
        assert(lefts[p] == logs[m - 1].messages[p]);
        assert(rights[p] == logs[m].messages[p]);
        assert forall|i: int, q: int|
            #![trigger logs[i].messages[q]]
            0 < i < m && 0 <= q && (forall|k: int|
                0 <= k < logs.len() ==> q < (#[trigger] logs[k]).messages.len()) implies logs[i
            - 1].messages[q] == logs[i].messages[q] by {
            assert(q < logs[s].messages.len());
            assert(logs[i - 1].messages.take(len as int) == logs[i].messages.take(len as int));
            assert(logs[i - 1].messages.take(len as int)[q] == logs[i].messages.take(len as int)[q]);
        }
        assert forall|i: int, q: int|
            #![trigger logs[i].messages[q]]
            0 <= i < logs.len() && 0 <= q < logs[i].messages.len() implies logs[i].messages[q].offset
            == logs[i].messages[0].offset + q by {
            let offsets = audit::offsets(logs[i]);
            audit::lemma_no_gap(offsets);
            assert(offsets[q] == offsets[0] + q);
        }
        (m, p)
    }
}

// ---------------------------------------------------------------------------
// Batch timestamps
// ---------------------------------------------------------------------------

/// The shortest list has the length of some list, and no list is shorter.
pub proof fn lemma_shortest_list_meaning(lists: Seq<Vec<(u64, u64)>>)
    ensures
        forall|i: int|
            0 <= i < lists.len() ==> audit::shortest_list(lists) <= (#[trigger] lists[i])@.len(),
        lists.len() > 0 ==> exists|i: int|
            0 <= i < lists.len() && (#[trigger] lists[i])@.len() == audit::shortest_list(lists),
    decreases lists.len(),
{
    if lists.len() == 1 {
        assert(lists[0]@.len() == audit::shortest_list(lists));
    } else if lists.len() > 1 {
        let front = lists.drop_last();
        let last = lists.len() - 1;
        lemma_shortest_list_meaning(front);
        assert forall|i: int| 0 <= i < lists.len() implies audit::shortest_list(lists) <= (
        #[trigger] lists[i])@.len() by {
            if i < front.len() {
                assert(front[i] == lists[i]);
            }
        }
        let m = choose|m: int|
            0 <= m < front.len() && (#[trigger] front[m])@.len() == audit::shortest_list(front);
        assert(lists[m] == front[m]);
        assert(lists[last]@.len() == audit::shortest_list(lists) || lists[m]@.len()
            == audit::shortest_list(lists));
    }
}

proof fn lemma_lists_all_agree(lists: Seq<Vec<(u64, u64)>>, len: nat, i: int, j: int)
    requires
        audit::lists_agree(lists, len),
        0 <= i <= j < lists.len(),
    ensures
        lists[i]@.take(len as int) == lists[j]@.take(len as int),
    decreases j - i,
{
    if i < j {
        lemma_lists_all_agree(lists, len, i, j - 1);
        assert(lists[j - 1]@.take(len as int) == lists[j]@.take(len as int));
    }
}

/// Lists that agree hold the same item wherever all of them reach.
pub proof fn lemma_agreeing_lists_hold_the_same_items(
    lists: Seq<Vec<(u64, u64)>>,
    i: int,
    j: int,
    p: int,
)
    requires
        audit::lists_agree(lists, audit::shortest_list(lists)),
        0 <= i < lists.len(),
        0 <= j < lists.len(),
        0 <= p,
        forall|k: int| 0 <= k < lists.len() ==> p < (#[trigger] lists[k])@.len(),
    ensures
        lists[i]@[p].0 == lists[j]@[p].0,
        lists[i]@[p].1 == lists[j]@[p].1,
{
    let len = audit::shortest_list(lists);
    lemma_shortest_list_meaning(lists);
    if i <= j {
        lemma_lists_all_agree(lists, len, i, j);
    } else {
        lemma_lists_all_agree(lists, len, j, i);
    }
    assert(lists[i]@.take(len as int)[p] == lists[j]@.take(len as int)[p]);
}

/// Lists that hold the same item wherever all of them reach agree.
pub proof fn lemma_equal_lists_agree(lists: Seq<Vec<(u64, u64)>>)
    requires
        forall|i: int, j: int, p: int|
            #![trigger lists[i]@[p], lists[j]@[p]]
            0 <= i < lists.len() && 0 <= j < lists.len() && 0 <= p && (forall|k: int|
                0 <= k < lists.len() ==> p < (#[trigger] lists[k])@.len()) ==> lists[i]@[p]
                == lists[j]@[p],
    ensures
        audit::lists_agree(lists, audit::shortest_list(lists)),
{
    let len = audit::shortest_list(lists);
    lemma_shortest_list_meaning(lists);
    assert forall|i: int| 0 < i < lists.len() implies lists[i - 1]@.take(len as int) == (
    #[trigger] lists[i])@.take(len as int) by {
        let lefts = lists[i - 1]@.take(len as int);
        let rights = lists[i]@.take(len as int);
        assert forall|p: int| 0 <= p < len implies lefts[p] == rights[p] by {
            assert(lists[i - 1]@[p] == lists[i]@[p]);
        }
        assert(lefts =~= rights);
    }
}

// ---------------------------------------------------------------------------
// Keys
// ---------------------------------------------------------------------------

/// Texts are ordered by their bytes: one comes before another when it is a
/// shorter start of it, or holds the smaller byte where the two first differ.
pub proof fn lemma_bytes_before_meaning(left: Seq<u8>, right: Seq<u8>)
    ensures
        audit::bytes_before(left, right) <==> exists|p: int|
            {
                &&& 0 <= p <= left.len()
                &&& p < right.len()
                &&& #[trigger] left.take(p) == right.take(p)
                &&& p == left.len() || left[p] < right[p]
            },
    decreases left.len(),
{
    if right.len() > 0 {
        if left.len() == 0 {
            assert(left.take(0) =~= right.take(0));
        } else if left[0] != right[0] {
            assert(left.take(0) =~= right.take(0));
            if exists|p: int|
                {
                    &&& 0 <= p <= left.len()
                    &&& p < right.len()
                    &&& #[trigger] left.take(p) == right.take(p)
                    &&& p == left.len() || left[p] < right[p]
                } {
                let p = choose|p: int|
                    {
                        &&& 0 <= p <= left.len()
                        &&& p < right.len()
                        &&& #[trigger] left.take(p) == right.take(p)
                        &&& p == left.len() || left[p] < right[p]
                    };
                if p > 0 {
                    assert(left.take(p)[0] == right.take(p)[0]);
                }
            }
        } else {
            let l = left.drop_first();
            let r = right.drop_first();
            lemma_bytes_before_meaning(l, r);
            if audit::bytes_before(l, r) {
                let p = choose|p: int|
                    {
                        &&& 0 <= p <= l.len()
                        &&& p < r.len()
                        &&& #[trigger] l.take(p) == r.take(p)
                        &&& p == l.len() || l[p] < r[p]
                    };
                let lefts = left.take(p + 1);
                let rights = right.take(p + 1);
                assert forall|q: int| 0 <= q < p + 1 implies lefts[q] == rights[q] by {
                    if q > 0 {
                        assert(l.take(p)[q - 1] == r.take(p)[q - 1]);
                    }
                }
                assert(lefts =~= rights);
            }
            if exists|p: int|
                {
                    &&& 0 <= p <= left.len()
                    &&& p < right.len()
                    &&& #[trigger] left.take(p) == right.take(p)
                    &&& p == left.len() || left[p] < right[p]
                } {
                let p = choose|p: int|
                    {
                        &&& 0 <= p <= left.len()
                        &&& p < right.len()
                        &&& #[trigger] left.take(p) == right.take(p)
                        &&& p == left.len() || left[p] < right[p]
                    };
                assert(p > 0);
                let lefts = l.take(p - 1);
                let rights = r.take(p - 1);
                assert forall|q: int| 0 <= q < p - 1 implies lefts[q] == rights[q] by {
                    assert(left.take(p)[q + 1] == right.take(p)[q + 1]);
                }
                assert(lefts =~= rights);
            }
        }
    }
}

/// One text comes before another when its bytes do.
pub proof fn lemma_text_before_meaning(left: Seq<char>, right: Seq<char>)
    ensures
        ({
            let l = vstd::utf8::encode_utf8(left);
            let r = vstd::utf8::encode_utf8(right);
            audit::text_before(left, right) <==> exists|p: int|
                {
                    &&& 0 <= p <= l.len()
                    &&& p < r.len()
                    &&& #[trigger] l.take(p) == r.take(p)
                    &&& p == l.len() || l[p] < r[p]
                }
        }),
{
    lemma_bytes_before_meaning(vstd::utf8::encode_utf8(left), vstd::utf8::encode_utf8(right));
}

/// The places named as a repeat hold one key, and the keys before the second
/// of them are distinct.
pub proof fn lemma_first_repeat_meaning(keys: Seq<Option<Seq<char>>>)
    ensures
        match audit::first_repeat(keys) {
            Some((first, second)) => {
                &&& 0 <= first < second < keys.len()
                &&& keys[second] is Some
                &&& keys[first] == keys[second]
                &&& forall|i: int, j: int|
                    0 <= i < j < second && #[trigger] keys[j] is Some ==> #[trigger] keys[i]
                        != keys[j]
            },
            None => forall|i: int, j: int|
                0 <= i < j < keys.len() && #[trigger] keys[j] is Some ==> #[trigger] keys[i]
                    != keys[j],
        },
    decreases keys.len(),
{
    audit::lemma_first_repeat(keys);
    if keys.len() > 0 {
        let front = keys.drop_last();
        lemma_first_repeat_meaning(front);
        if let Some((first, second)) = audit::first_repeat(keys) {
            assert forall|i: int, j: int|
                0 <= i < j < second && #[trigger] keys[j] is Some implies #[trigger] keys[i]
                != keys[j] by {
                assert(front[i] == keys[i] && front[j] == keys[j]);
            }
        }
    }
}

/// When no log is found at fault, no log holds a key twice.
pub proof fn lemma_passing_logs_hold_each_key_once(
    logs: Seq<LogView>,
    acked: Seq<Seq<char>>,
    i: int,
    a: int,
    b: int,
)
    requires
        audit::key_violation(logs, acked, audit::longest(logs)) is None,
        0 <= i < logs.len(),
        0 <= a < b < logs[i].keys.len(),
        logs[i].keys[a] is Some,
    ensures
        logs[i].keys[a] != logs[i].keys[b],
{
    audit::lemma_no_violation_means_each_key_once(logs, acked, i);
    if logs[i].keys[b] is Some {
        assert(logs[i].keys[a] != logs[i].keys[b]);
    }
}

/// When no log is found at fault, every log that is as long as any holds every
/// acknowledged key.
pub proof fn lemma_passing_logs_hold_the_acknowledged_keys(
    logs: Seq<LogView>,
    acked: Seq<Seq<char>>,
    i: int,
    k: int,
)
    requires
        audit::key_violation(logs, acked, audit::longest(logs)) is None,
        0 <= i < logs.len(),
        forall|m: int|
            0 <= m < logs.len() ==> (#[trigger] logs[m]).messages.len() <= logs[i].messages.len(),
        0 <= k < acked.len(),
    ensures
        exists|m: int| 0 <= m < logs[i].keys.len() && #[trigger] logs[i].keys[m] == Some(acked[k]),
{
    lemma_longest_meaning(logs);
    audit::lemma_no_violation_means_each_key_once(logs, acked, i);
    assert(audit::holds_key(logs[i].keys, acked[k]));
}

proof fn lemma_key_violation_place(logs: Seq<LogView>, acked: Seq<Seq<char>>, len: nat) -> (g: int)
    requires
        audit::key_violation(logs, acked, len) is Some,
    ensures
        0 <= g < logs.len(),
        audit::key_violation(logs, acked, len) == audit::log_violation(logs[g], acked, len),
        audit::key_violation(logs.take(g), acked, len) is None,
    decreases logs.len(),
{
    let front = logs.drop_last();
    if audit::key_violation(front, acked, len) is Some {
        let g = lemma_key_violation_place(front, acked, len);
        assert(front.take(g) =~= logs.take(g));
        g
    } else {
        assert(logs.take(logs.len() - 1) =~= front);
        logs.len() - 1
    }
}

/// What is named as wrong with the keys of a log is wrong. A repeat names two
/// places that hold one key, after keys that are distinct. A loss names a log
/// that is as long as any and holds each key once, and an acknowledged key
/// that it does not hold; no acknowledged key that it does not hold either
/// comes before it. The logs before the one named pass.
pub proof fn lemma_named_key_violation_is_one(logs: Seq<LogView>, acked: Seq<Seq<char>>) -> (g: int)
    requires
        audit::key_violation(logs, acked, audit::longest(logs)) is Some,
        forall|i: int| 0 <= i < logs.len() ==> (#[trigger] logs[i]).keys.len() <= usize::MAX,
        acked.len() <= usize::MAX,
    ensures
        0 <= g < logs.len(),
        match audit::key_violation(logs, acked, audit::longest(logs))->0 {
            Violation::KeyTwice { replica, first, second } => {
                &&& logs[g].replica == replica
                &&& first < second < logs[g].keys.len()
                &&& logs[g].keys[first as int] is Some
                &&& logs[g].keys[first as int] == logs[g].keys[second as int]
                &&& forall|i: int, j: int|
                    0 <= i < j < second && #[trigger] logs[g].keys[j] is Some
                        ==> #[trigger] logs[g].keys[i] != logs[g].keys[j]
            },
            Violation::KeyLost { replica, acked: at } => {
                &&& logs[g].replica == replica
                &&& forall|m: int|
                    0 <= m < logs.len() ==> (#[trigger] logs[m]).messages.len()
                        <= logs[g].messages.len()
                &&& at < acked.len()
                &&& forall|m: int|
                    0 <= m < logs[g].keys.len() ==> #[trigger] logs[g].keys[m] != Some(
                        acked[at as int],
                    )
                &&& forall|k: int|
                    0 <= k < acked.len() && (forall|m: int|
                        0 <= m < logs[g].keys.len() ==> #[trigger] logs[g].keys[m] != Some(
                            acked[k],
                        )) ==> !audit::text_before(#[trigger] acked[k], acked[at as int])
                &&& forall|k: int|
                    0 <= k < at && (forall|m: int|
                        0 <= m < logs[g].keys.len() ==> #[trigger] logs[g].keys[m] != Some(
                            acked[k],
                        )) ==> #[trigger] acked[k] != acked[at as int]
                &&& forall|i: int, j: int|
                    0 <= i < j < logs[g].keys.len() && #[trigger] logs[g].keys[j] is Some
                        ==> #[trigger] logs[g].keys[i] != logs[g].keys[j]
            },
            _ => false,
        },
        forall|i: int, a: int, b: int|
            #![trigger logs[i].keys[a], logs[i].keys[b]]
            0 <= i < g && 0 <= a < b < logs[i].keys.len() && logs[i].keys[a] is Some
                ==> logs[i].keys[a] != logs[i].keys[b],
        forall|i: int, k: int|
            0 <= i < g && 0 <= k < acked.len() && (forall|m: int|
                0 <= m < logs.len() ==> (#[trigger] logs[m]).messages.len()
                    <= logs[i].messages.len()) ==> #[trigger] logs[i].keys.contains(
                Some(acked[k]),
            ),
{
    let len = audit::longest(logs);
    let g = lemma_key_violation_place(logs, acked, len);
    lemma_longest_meaning(logs);
    assert forall|i: int, a: int, b: int|
        #![trigger logs[i].keys[a], logs[i].keys[b]]
        0 <= i < g && 0 <= a < b < logs[i].keys.len() && logs[i].keys[a] is Some implies logs[i].keys[a]
        != logs[i].keys[b] by {
        audit::lemma_each_log_passes(logs.take(g), acked, len, i);
        audit::lemma_first_repeat(logs[i].keys);
    }
    assert forall|i: int, k: int|
        0 <= i < g && 0 <= k < acked.len() && (forall|m: int|
            0 <= m < logs.len() ==> (#[trigger] logs[m]).messages.len()
                <= logs[i].messages.len()) implies #[trigger] logs[i].keys.contains(
        Some(acked[k]),
    ) by {
        audit::lemma_each_log_passes(logs.take(g), acked, len, i);
        audit::lemma_smallest_lost(logs[i].keys, acked);
        assert(audit::holds_key(logs[i].keys, acked[k]));
    }
    lemma_first_repeat_meaning(logs[g].keys);
    audit::lemma_smallest_lost(logs[g].keys, acked);
    if audit::first_repeat(logs[g].keys) is None {
        let at = audit::smallest_lost(logs[g].keys, acked)->0;
        assert forall|k: int|
            0 <= k < acked.len() && (forall|m: int|
                0 <= m < logs[g].keys.len() ==> #[trigger] logs[g].keys[m] != Some(
                    acked[k],
                )) implies !audit::text_before(#[trigger] acked[k], acked[at]) by {
            assert(!audit::holds_key(logs[g].keys, acked[k]));
        }
        assert forall|k: int|
            0 <= k < at && (forall|m: int|
                0 <= m < logs[g].keys.len() ==> #[trigger] logs[g].keys[m] != Some(
                    acked[k],
                )) implies #[trigger] acked[k] != acked[at] by {
            assert(!audit::holds_key(logs[g].keys, acked[k]));
        }
        assert forall|m: int| 0 <= m < logs[g].keys.len() implies #[trigger] logs[g].keys[m]
            != Some(acked[at]) by {
            if logs[g].keys[m] == Some(acked[at]) {
                assert(audit::holds_key(logs[g].keys, acked[at]));
            }
        }
    }
    g
}

/// Logs that hold each key once, and every acknowledged key where they are as
/// long as any, are not found at fault.
pub proof fn lemma_sound_keys_are_not_accused(logs: Seq<LogView>, acked: Seq<Seq<char>>)
    requires
        forall|i: int, a: int, b: int|
            #![trigger logs[i].keys[a], logs[i].keys[b]]
            0 <= i < logs.len() && 0 <= a < b < logs[i].keys.len() && logs[i].keys[a] is Some
                ==> logs[i].keys[a] != logs[i].keys[b],
        forall|i: int, k: int|
            #![trigger logs[i].keys, acked[k]]
            0 <= i < logs.len() && 0 <= k < acked.len() && (forall|m: int|
                0 <= m < logs.len() ==> (#[trigger] logs[m]).messages.len()
                    <= logs[i].messages.len()) ==> exists|m: int|
                0 <= m < logs[i].keys.len() && #[trigger] logs[i].keys[m] == Some(acked[k]),
    ensures
        audit::key_violation(logs, acked, audit::longest(logs)) is None,
{
    let len = audit::longest(logs);
    lemma_longest_meaning(logs);
    if audit::key_violation(logs, acked, len) is Some {
        let g = lemma_key_violation_place(logs, acked, len);
        let keys = logs[g].keys;
        lemma_first_repeat_meaning(keys);
        if let Some((first, second)) = audit::first_repeat(keys) {
            assert(logs[g].keys[first] != logs[g].keys[second]);
        } else {
            audit::lemma_smallest_lost(keys, acked);
            let at = audit::smallest_lost(keys, acked)->0;
            assert(logs[g].keys == keys && acked[at] == acked[at]);
            let m = choose|m: int|
                0 <= m < logs[g].keys.len() && #[trigger] logs[g].keys[m] == Some(acked[at]);
            assert(audit::holds_key(keys, acked[at]));
        }
    }
}

// ---------------------------------------------------------------------------
// Indexes
// ---------------------------------------------------------------------------

/// The newest commit is that of some replica, and no replica has committed
/// further.
pub proof fn lemma_newest_commit_meaning(states: Seq<IndexState>)
    ensures
        forall|i: int|
            0 <= i < states.len() ==> (#[trigger] states[i]).commit <= audit::newest_commit(states),
        states.len() > 0 ==> exists|i: int|
            0 <= i < states.len() && (#[trigger] states[i]).commit == audit::newest_commit(states),
    decreases states.len(),
{
    if states.len() > 0 {
        let front = states.drop_last();
        let last = states.len() - 1;
        lemma_newest_commit_meaning(front);
        assert forall|i: int| 0 <= i < states.len() implies (#[trigger] states[i]).commit
            <= audit::newest_commit(states) by {
            if i < front.len() {
                assert(front[i] == states[i]);
            }
        }
        if front.len() > 0 {
            let m = choose|m: int|
                0 <= m < front.len() && (#[trigger] front[m]).commit == audit::newest_commit(front);
            assert(states[m] == front[m]);
            assert(states[last].commit == audit::newest_commit(states) || states[m].commit
                == audit::newest_commit(states));
        } else {
            assert(audit::newest_commit(front) == 0);
            assert(states[last].commit == audit::newest_commit(states));
        }
    }
}

/// When no index is found odd, every two replicas that have committed as far as
/// every other hold one index.
pub proof fn lemma_foremost_replicas_hold_one_index(states: Seq<IndexState>, i: int, j: int)
    requires
        audit::odd_index(states) is None,
        0 <= i < states.len(),
        0 <= j < states.len(),
        forall|k: int| 0 <= k < states.len() ==> (#[trigger] states[k]).commit <= states[i].commit,
        forall|k: int| 0 <= k < states.len() ==> (#[trigger] states[k]).commit <= states[j].commit,
    ensures
        states[i].fingerprint == states[j].fingerprint,
{
    lemma_newest_commit_meaning(states);
    audit::lemma_no_odd_index(states);
    let m = choose|m: int|
        0 <= m < states.len() && (#[trigger] states[m]).commit == audit::newest_commit(states);
    assert(states[m].commit <= states[i].commit && states[m].commit <= states[j].commit);
}

proof fn lemma_first_at_place(states: Seq<IndexState>, commit: u64) -> (r: int)
    requires
        audit::first_at(states, commit) is Some,
    ensures
        0 <= r < states.len(),
        audit::first_at(states, commit) == Some(states[r]),
        states[r].commit == commit,
        forall|i: int| 0 <= i < r ==> (#[trigger] states[i]).commit != commit,
    decreases states.len(),
{
    if states[0].commit == commit {
        0
    } else {
        let rest = states.drop_first();
        let r = lemma_first_at_place(rest, commit);
        assert forall|i: int| 0 <= i < r + 1 implies (#[trigger] states[i]).commit != commit by {
            if i > 0 {
                assert(rest[i - 1] == states[i]);
            }
        }
        r + 1
    }
}

proof fn lemma_first_other_place(states: Seq<IndexState>, commit: u64, fingerprint: u128) -> (o:
    int)
    requires
        audit::first_other(states, commit, fingerprint) is Some,
    ensures
        0 <= o < states.len(),
        audit::first_other(states, commit, fingerprint) == Some(states[o].replica),
        states[o].commit == commit,
        states[o].fingerprint != fingerprint,
        forall|i: int|
            0 <= i < o && (#[trigger] states[i]).commit == commit ==> states[i].fingerprint
                == fingerprint,
    decreases states.len(),
{
    if states[0].commit == commit && states[0].fingerprint != fingerprint {
        0
    } else {
        let rest = states.drop_first();
        let o = lemma_first_other_place(rest, commit, fingerprint);
        assert forall|i: int|
            0 <= i < o + 1 && (#[trigger] states[i]).commit == commit implies states[i].fingerprint
            == fingerprint by {
            if i > 0 {
                assert(rest[i - 1] == states[i]);
            }
        }
        o + 1
    }
}

/// A replica that is named for its index has committed as far as every other,
/// and so has an earlier one that holds another index; the ones as far along
/// between the two hold that other index too, and before the two there is none
/// as far along.
pub proof fn lemma_named_index_is_odd(states: Seq<IndexState>) -> (places: (int, int))
    requires
        audit::odd_index(states) is Some,
    ensures
        ({
            let (r, o) = places;
            &&& 0 <= r < o < states.len()
            &&& audit::odd_index(states) == Some(states[o].replica)
            &&& forall|k: int|
                0 <= k < states.len() ==> (#[trigger] states[k]).commit <= states[o].commit
            &&& states[r].commit == states[o].commit
            &&& states[r].fingerprint != states[o].fingerprint
            &&& forall|k: int| 0 <= k < r ==> (#[trigger] states[k]).commit < states[o].commit
            &&& forall|k: int|
                r < k < o && (#[trigger] states[k]).commit == states[o].commit
                    ==> states[k].fingerprint == states[r].fingerprint
        }),
{
    let commit = audit::newest_commit(states);
    lemma_newest_commit_meaning(states);
    let r = lemma_first_at_place(states, commit);
    let o = lemma_first_other_place(states, commit, states[r].fingerprint);
    if o < r {
        assert(states[o].commit != commit);
    }
    assert(r != o);
    (r, o)
}

/// No index is found odd exactly when every two replicas that have committed as
/// far as every other hold one index; one that is found has committed as far as
/// every other, and so has an earlier one with another index.
pub proof fn lemma_odd_index_meaning(states: Seq<IndexState>)
    ensures
        audit::odd_index(states) is None <==> forall|i: int, j: int|
            #![trigger states[i], states[j]]
            0 <= i < states.len() && 0 <= j < states.len() && (forall|k: int|
                0 <= k < states.len() ==> (#[trigger] states[k]).commit <= states[i].commit
                    && states[k].commit <= states[j].commit) ==> states[i].fingerprint
                == states[j].fingerprint,
        audit::odd_index(states) matches Some(replica) ==> exists|i: int, j: int|
            #![trigger states[i], states[j]]
            {
                &&& 0 <= i < j < states.len()
                &&& states[j].replica == replica
                &&& states[i].fingerprint != states[j].fingerprint
                &&& forall|k: int|
                    0 <= k < states.len() ==> (#[trigger] states[k]).commit <= states[i].commit
                        && states[k].commit <= states[j].commit
            },
{
    if audit::odd_index(states) is None {
        assert forall|i: int, j: int|
            #![trigger states[i], states[j]]
            0 <= i < states.len() && 0 <= j < states.len() && (forall|k: int|
                0 <= k < states.len() ==> (#[trigger] states[k]).commit <= states[i].commit
                    && states[k].commit <= states[j].commit) implies states[i].fingerprint
            == states[j].fingerprint by {
            lemma_foremost_replicas_hold_one_index(states, i, j);
        }
    } else {
        let (r, o) = lemma_named_index_is_odd(states);
        assert(states[r].fingerprint != states[o].fingerprint);
    }
}

/// Lists agree exactly when they hold the same item wherever all of them reach.
pub proof fn lemma_lists_agree_meaning(lists: Seq<Vec<(u64, u64)>>)
    ensures
        audit::lists_agree(lists, audit::shortest_list(lists)) <==> forall|i: int, j: int, p: int|
            #![trigger lists[i]@[p], lists[j]@[p]]
            0 <= i < lists.len() && 0 <= j < lists.len() && 0 <= p && (forall|k: int|
                0 <= k < lists.len() ==> p < (#[trigger] lists[k])@.len()) ==> lists[i]@[p]
                == lists[j]@[p],
{
    if audit::lists_agree(lists, audit::shortest_list(lists)) {
        assert forall|i: int, j: int, p: int|
            #![trigger lists[i]@[p], lists[j]@[p]]
            0 <= i < lists.len() && 0 <= j < lists.len() && 0 <= p && (forall|k: int|
                0 <= k < lists.len() ==> p < (#[trigger] lists[k])@.len()) implies lists[i]@[p]
            == lists[j]@[p] by {
            lemma_agreeing_lists_hold_the_same_items(lists, i, j, p);
        }
    } else if forall|i: int, j: int, p: int|
        #![trigger lists[i]@[p], lists[j]@[p]]
        0 <= i < lists.len() && 0 <= j < lists.len() && 0 <= p && (forall|k: int|
            0 <= k < lists.len() ==> p < (#[trigger] lists[k])@.len()) ==> lists[i]@[p]
            == lists[j]@[p] {
        lemma_equal_lists_agree(lists);
    }
}

// ---------------------------------------------------------------------------
// Logs as they are held
// ---------------------------------------------------------------------------

/// A log is seen as it is held: the same messages and keys at the same places,
/// with every byte and character.
pub proof fn lemma_log_is_seen_as_held(log: ReplicaLog)
    ensures
        log@.replica == log.replica,
        log@.messages.len() == log.messages@.len(),
        log@.keys.len() == log.keys@.len(),
        forall|p: int|
            0 <= p < log.messages@.len() ==> {
                &&& (#[trigger] log@.messages[p]).offset == log.messages@[p].offset
                &&& log@.messages[p].user_headers == log.messages@[p].user_headers@
            },
        forall|p: int|
            0 <= p < log.keys@.len() ==> {
                &&& (#[trigger] log@.keys[p]) is Some <==> log.keys@[p] is Some
                &&& log.keys@[p] matches Some(text) ==> log@.keys[p] == Some(text@)
            },
{
}

/// What the verdict on the logs of a group means for the messages they hold.
/// Nothing is found exactly when the offsets of every log count up by one and
/// every two logs hold the same message wherever all logs reach. Two replicas
/// named as diverging do not, and a replica named for a gap does not count up.
pub proof fn lemma_verdict_on_held_logs(logs: Seq<ReplicaLog>)
    ensures
        ({
            let found = audit::disagreement(audit::log_views(logs));
            &&& found is None <==> {
                &&& forall|i: int, p: int|
                    #![trigger logs[i].messages@[p]]
                    0 <= i < logs.len() && 0 <= p < logs[i].messages@.len()
                        ==> logs[i].messages@[p].offset == logs[i].messages@[0].offset + p
                &&& forall|i: int, j: int, p: int|
                    #![trigger logs[i].messages@[p], logs[j].messages@[p]]
                    0 <= i < logs.len() && 0 <= j < logs.len() && 0 <= p && (forall|k: int|
                        0 <= k < logs.len() ==> p < (#[trigger] logs[k]).messages@.len()) ==> {
                        &&& logs[i].messages@[p].offset == logs[j].messages@[p].offset
                        &&& logs[i].messages@[p].user_headers@ == logs[j].messages@[p].user_headers@
                    }
            }
            &&& found matches Some(Violation::Divergence { left, right }) ==> exists|
                i: int,
                j: int,
                p: int,
            |
                #![trigger logs[i].messages@[p], logs[j].messages@[p]]
                {
                    &&& 0 <= i < logs.len()
                    &&& 0 <= j < logs.len()
                    &&& logs[i].replica == left
                    &&& logs[j].replica == right
                    &&& 0 <= p
                    &&& forall|k: int|
                        0 <= k < logs.len() ==> p < (#[trigger] logs[k]).messages@.len()
                    &&& logs[i].messages@[p].offset != logs[j].messages@[p].offset
                        || logs[i].messages@[p].user_headers@
                        != logs[j].messages@[p].user_headers@
                }
            &&& found matches Some(Violation::Gap { replica, after }) ==> exists|i: int|
                {
                    &&& 0 <= i < logs.len()
                    &&& (#[trigger] logs[i]).replica == replica
                    &&& after + 1 < logs[i].messages@.len()
                    &&& logs[i].messages@[after + 1].offset != logs[i].messages@[after as int].offset
                        + 1
                }
            &&& !(found is Some && (found->0 is KeyTwice || found->0 is KeyLost))
        }),
{
    let views = audit::log_views(logs);
    let found = audit::disagreement(views);
    assert forall|i: int| 0 <= i < logs.len() implies {
        &&& (#[trigger] views[i]).messages.len() == logs[i].messages@.len()
        &&& views[i].replica == logs[i].replica
    } by {}
    assert forall|i: int, p: int|
        #![trigger views[i].messages[p]]
        0 <= i < logs.len() && 0 <= p < logs[i].messages@.len() implies {
        &&& views[i].messages[p].offset == logs[i].messages@[p].offset
        &&& views[i].messages[p].user_headers == logs[i].messages@[p].user_headers@
    } by {}
    if found is None {
        assert forall|i: int, p: int|
            #![trigger logs[i].messages@[p]]
            0 <= i < logs.len() && 0 <= p < logs[i].messages@.len() implies logs[i].messages@[p].offset
            == logs[i].messages@[0].offset + p by {
            lemma_agreeing_logs_have_no_gap(views, i, p);
            assert(views[i].messages[p].offset == logs[i].messages@[p].offset);
            assert(views[i].messages[0].offset == logs[i].messages@[0].offset);
        }
        assert forall|i: int, j: int, p: int|
            #![trigger logs[i].messages@[p], logs[j].messages@[p]]
            0 <= i < logs.len() && 0 <= j < logs.len() && 0 <= p && (forall|k: int|
                0 <= k < logs.len() ==> p < (#[trigger] logs[k]).messages@.len()) implies {
            &&& logs[i].messages@[p].offset == logs[j].messages@[p].offset
            &&& logs[i].messages@[p].user_headers@ == logs[j].messages@[p].user_headers@
        } by {
            assert forall|k: int| 0 <= k < views.len() implies p < (
            #[trigger] views[k]).messages.len() by {
                assert(p < logs[k].messages@.len());
            }
            lemma_agreeing_logs_hold_the_same_messages(views, i, j, p);
            assert(p < logs[i].messages@.len() && p < logs[j].messages@.len());
            assert(views[i].messages[p].offset == logs[i].messages@[p].offset);
            assert(views[j].messages[p].offset == logs[j].messages@[p].offset);
        }
    } else {
        assert forall|i: int| 0 <= i < views.len() implies (#[trigger] views[i]).messages.len()
            <= usize::MAX by {
            assert(logs[i].messages@.len() == logs[i].messages.len());
        }
        let (a, b) = lemma_named_disagreement_is_one(views);
        match found->0 {
            Violation::Divergence { left, right } => {
                assert forall|k: int| 0 <= k < logs.len() implies b < (
                #[trigger] logs[k]).messages@.len() by {
                    assert(b < views[k].messages.len());
                }
                assert(b < logs[a].messages@.len() && b < logs[a - 1].messages@.len());
                assert(views[a].messages[b] != views[a - 1].messages[b]);
                assert(views[a].messages[b].offset == logs[a].messages@[b].offset);
                assert(views[a - 1].messages[b].offset == logs[a - 1].messages@[b].offset);
                assert(logs[a - 1].messages@[b].offset != logs[a].messages@[b].offset || logs[a
                    - 1].messages@[b].user_headers@ != logs[a].messages@[b].user_headers@);
            },
            Violation::Gap { replica, after } => {
                assert(views[a].messages[b + 1].offset == logs[a].messages@[b + 1].offset);
                assert(views[a].messages[b].offset == logs[a].messages@[b].offset);
                assert(logs[a].messages@[after as int].offset == logs[a].messages@[b].offset);
                if logs[a].messages@[b + 1].offset == logs[a].messages@[0].offset + b + 1 {
                    assert(views[a].messages[0].offset == logs[a].messages@[0].offset);
                    assert(views[a].messages[b].offset == views[a].messages[0].offset + b);
                }
            },
            _ => {},
        }
    }
}

/// When the keys of a group pass, no log holds a key twice, and every log that
/// is as long as any holds every acknowledged key.
pub proof fn lemma_passing_verdict_on_held_keys(logs: Seq<ReplicaLog>, acked: Seq<String>)
    ensures
        ({
            let views = audit::log_views(logs);
            let found = audit::key_violation(views, audit::texts(acked), audit::longest(views));
            &&& found is None ==> forall|i: int, a: int, b: int|
                #![trigger logs[i].keys@[a], logs[i].keys@[b]]
                0 <= i < logs.len() && 0 <= a < b < logs[i].keys@.len() && logs[i].keys@[a] is Some
                    && logs[i].keys@[b] is Some ==> logs[i].keys@[a]->0@ != logs[i].keys@[b]->0@
            &&& found is None ==> forall|i: int, k: int|
                0 <= i < logs.len() && 0 <= k < acked.len() && (forall|m: int|
                    0 <= m < logs.len() ==> (#[trigger] logs[m]).messages@.len()
                        <= logs[i].messages@.len()) ==> #[trigger] logs[i]@.keys.contains(
                    Some(acked[k]@),
                )
        }),
{
    let views = audit::log_views(logs);
    let texts = audit::texts(acked);
    let found = audit::key_violation(views, texts, audit::longest(views));
    assert forall|i: int| 0 <= i < logs.len() implies {
        &&& (#[trigger] views[i]).messages.len() == logs[i].messages@.len()
        &&& views[i].keys.len() == logs[i].keys@.len()
        &&& views[i].replica == logs[i].replica
    } by {}
    assert forall|i: int, a: int|
        #![trigger views[i].keys[a]]
        0 <= i < logs.len() && 0 <= a < logs[i].keys@.len() implies views[i].keys[a]
        == audit::key_view(logs[i].keys@[a]) by {}
    if found is None {
        assert forall|i: int, a: int, b: int|
            #![trigger logs[i].keys@[a], logs[i].keys@[b]]
            0 <= i < logs.len() && 0 <= a < b < logs[i].keys@.len() && logs[i].keys@[a] is Some
                && logs[i].keys@[b] is Some implies logs[i].keys@[a]->0@
            != logs[i].keys@[b]->0@ by {
            assert(views[i].keys[a] == audit::key_view(logs[i].keys@[a]));
            assert(views[i].keys[b] == audit::key_view(logs[i].keys@[b]));
            lemma_passing_logs_hold_each_key_once(views, texts, i, a, b);
        }
        assert forall|i: int, k: int|
            0 <= i < logs.len() && 0 <= k < acked.len() && (forall|m: int|
                0 <= m < logs.len() ==> (#[trigger] logs[m]).messages@.len()
                    <= logs[i].messages@.len()) implies #[trigger] logs[i]@.keys.contains(
            Some(acked[k]@),
        ) by {
            assert forall|m: int| 0 <= m < views.len() implies (#[trigger] views[m]).messages.len()
                <= views[i].messages.len() by {
                assert(logs[m].messages@.len() <= logs[i].messages@.len());
            }
            lemma_passing_logs_hold_the_acknowledged_keys(views, texts, i, k);
            let m = choose|m: int|
                0 <= m < views[i].keys.len() && #[trigger] views[i].keys[m] == Some(texts[k]);
            assert(logs[i]@.keys[m] == Some(acked[k]@));
        }
    }
}

/// What is named as wrong with the keys of a group is: a key that a log holds
/// twice, or an acknowledged key that a log as long as any does not hold.
pub proof fn lemma_named_verdict_on_held_keys(logs: Seq<ReplicaLog>, acked: Seq<String>)
    requires
        acked.len() <= usize::MAX,
    ensures
        ({
            let views = audit::log_views(logs);
            let found = audit::key_violation(views, audit::texts(acked), audit::longest(views));
            &&& found matches Some(Violation::KeyTwice { replica, first, second }) ==> exists|
                i: int,
            |
                {
                    &&& 0 <= i < logs.len()
                    &&& (#[trigger] logs[i]).replica == replica
                    &&& first < second < logs[i].keys@.len()
                    &&& logs[i].keys@[first as int] is Some
                    &&& logs[i].keys@[second as int] is Some
                    &&& logs[i].keys@[first as int]->0@ == logs[i].keys@[second as int]->0@
                }
            &&& found matches Some(Violation::KeyLost { replica, acked: at }) ==> at < acked.len()
                && exists|i: int|
                {
                    &&& 0 <= i < logs.len()
                    &&& (#[trigger] logs[i]).replica == replica
                    &&& forall|m: int|
                        0 <= m < logs.len() ==> (#[trigger] logs[m]).messages@.len()
                            <= logs[i].messages@.len()
                    &&& forall|m: int|
                        0 <= m < logs[i].keys@.len() && (#[trigger] logs[i].keys@[m]) is Some
                            ==> logs[i].keys@[m]->0@ != acked[at as int]@
                }
            &&& !(found is Some && (found->0 is Gap || found->0 is Divergence))
        }),
{
    let views = audit::log_views(logs);
    let texts = audit::texts(acked);
    let found = audit::key_violation(views, texts, audit::longest(views));
    assert forall|i: int| 0 <= i < logs.len() implies {
        &&& (#[trigger] views[i]).messages.len() == logs[i].messages@.len()
        &&& views[i].keys.len() == logs[i].keys@.len()
        &&& views[i].replica == logs[i].replica
    } by {}
    assert forall|i: int, a: int|
        #![trigger views[i].keys[a]]
        0 <= i < logs.len() && 0 <= a < logs[i].keys@.len() implies views[i].keys[a]
        == audit::key_view(logs[i].keys@[a]) by {}
    if found is Some {
        assert forall|i: int| 0 <= i < views.len() implies (#[trigger] views[i]).keys.len()
            <= usize::MAX by {
            assert(logs[i].keys@.len() == logs[i].keys.len());
        }
        let g = lemma_named_key_violation_is_one(views, texts);
        match found->0 {
            Violation::KeyTwice { replica, first, second } => {
                assert(views[g].keys[first as int] == audit::key_view(
                    logs[g].keys@[first as int],
                ));
                assert(views[g].keys[second as int] == audit::key_view(
                    logs[g].keys@[second as int],
                ));
                assert(logs[g].replica == replica);
            },
            Violation::KeyLost { replica, acked: at } => {
                assert forall|m: int| 0 <= m < logs.len() implies (
                #[trigger] logs[m]).messages@.len() <= logs[g].messages@.len() by {
                    assert(views[m].messages.len() <= views[g].messages.len());
                }
                assert forall|m: int|
                    0 <= m < logs[g].keys@.len() && (
                    #[trigger] logs[g].keys@[m]) is Some implies logs[g].keys@[m]->0@
                    != acked[at as int]@ by {
                    assert(views[g].keys[m] == audit::key_view(logs[g].keys@[m]));
                    assert(views[g].keys[m] != Some(texts[at as int]));
                }
                assert(logs[g].replica == replica);
            },
            _ => {},
        }
    }
}

// ---------------------------------------------------------------------------
// Keys of messages
// ---------------------------------------------------------------------------

/// The value of a header is every byte of the first header of the name, and
/// there is one if and only if the block is well formed and carries the header.
pub proof fn lemma_header_value_is_whole(block: Seq<u8>, name: Seq<u8>)
    ensures
        audit::header_value(block, name) is Some <==> user_headers::decode(block) is Some && exists|
            i: int,
        |
            0 <= i < user_headers::decode(block)->0.len() && (#[trigger] user_headers::decode(
                block,
            )->0[i]).key.content == name,
        audit::header_value(block, name) matches Some(value) ==> exists|i: int|
            {
                &&& 0 <= i < user_headers::decode(block)->0.len()
                &&& (#[trigger] user_headers::decode(block)->0[i]).key.content == name
                &&& forall|j: int|
                    0 <= j < i ==> (#[trigger] user_headers::decode(block)->0[j]).key.content
                        != name
                &&& value == user_headers::decode(block)->0[i].value.content
            },
{
    if let Some(entries) = user_headers::decode(block) {
        user_headers::lemma_first_named(entries, name);
        if let Some(entry) = user_headers::first_named(entries, name) {
            assert((seq![entry.value.kind] + entry.value.content).skip(1)
                =~= entry.value.content);
        }
    }
}

/// The keys of a log are the dedup headers of its messages, one for one, read
/// as text.
pub proof fn lemma_keys_of_meaning(messages: Seq<CommittedMessage>, name: Seq<u8>)
    ensures
        audit::keys_of(messages, name).len() == messages.len(),
        forall|p: int|
            0 <= p < messages.len() ==> match audit::header_value(
                messages[p].user_headers@,
                name,
            ) {
                Some(value) => #[trigger] audit::keys_of(messages, name)[p] == Some(
                    policy::utf8_lossy(value),
                ),
                None => audit::keys_of(messages, name)[p] is None,
            },
{
}

} // verus!
