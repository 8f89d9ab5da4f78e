//! What holds of every reconciliation of a trace with a receipt.

use vstd::prelude::*;

use crate::event::{canonical_index, matches_log};
use crate::index::{
    first_mismatch, is_first_mismatch, is_last_event, is_next_event, matches_before,
    reverted_index,
};
use crate::order::{
    is_ordered, is_stable_order, law_order_exists, law_order_rearranges, law_order_unique,
    lemma_with_idx_add, lemma_with_idx_none, ordered, with_idx,
};
use crate::position::{is_next_position, lemma_next_position_exists, links, next_position};
use crate::reconcile::{
    credit_position, hidden_events, is_root_at, main_range, marked, reconciled, refusal,
    root_index, with_indexes, with_room, ReconcileError,
};
use crate::record::{Cip64LogSplit, Entry, EventModel, Ids, LogModel, TraceModel};
use crate::rekey::{changed_ids, moved_traces};
use crate::subtree_laws::{
    avoids_root, is_moved_at, law_shift_keeps_records, lemma_shift_is_one_list,
};

verus! {

/// An entry that has a root and is not refused.
pub open spec fn is_reconciled<T>(
    entry: Entry<T>,
    logs: Seq<LogModel>,
    hidden: bool,
    start: int,
    split: Option<Cip64LogSplit>,
    ids: Ids<T>,
) -> bool {
    &&& root_index(entry.all_traces()) is Some
    &&& reconciled(entry, logs, hidden, start, split, ids).1 is None
}

/// The event stands for the log at `i` of a receipt whose first log has the index `start`.
pub open spec fn mirrors(event: EventModel, logs: Seq<LogModel>, start: int, i: int) -> bool {
    &&& matches_log(event, logs[i])
    &&& event.idx == canonical_index(logs[i], start + i)
}

/// The events have the same contract, selector, topics and data.
pub open spec fn same_content(left: EventModel, right: EventModel) -> bool {
    &&& left.contract_id == right.contract_id
    &&& left.selector == right.selector
    &&& left.topics == right.topics
    &&& left.data == right.data
}

/// The indexes of the logs grow from one to the next.
pub open spec fn indexes_grow(logs: Seq<LogModel>, start: int) -> bool {
    forall|i: int, j: int|
        0 <= i < j < logs.len() ==> canonical_index(#[trigger] logs[i], start + i)
            < canonical_index(#[trigger] logs[j], start + j)
}

/// Events that are not refused match their logs.
proof fn lemma_no_mismatch(events: Seq<EventModel>, logs: Seq<LogModel>, n: int)
    requires
        first_mismatch(events, logs) is None,
        0 <= n <= events.len(),
    ensures
        matches_before(events, logs, n),
    decreases n,
{
    if n > 0 {
        lemma_no_mismatch(events, logs, n - 1);
        assert(!is_first_mismatch(events, logs, n - 1));
    }
}

/// The identifier of the root frame.
pub open spec fn root_id<T>(entry: Entry<T>) -> Seq<char> {
    entry.all_traces()[root_index(entry.all_traces())->0].id
}

/// The events for the logs before those of the main execution: the root's first children.
pub open spec fn debit_events<T>(
    entry: Entry<T>,
    logs: Seq<LogModel>,
    start: int,
    split: Option<Cip64LogSplit>,
    ids: Ids<T>,
) -> Seq<EventModel> {
    let range = main_range(logs.len(), split)->0;
    hidden_events(logs, 0, range.0, root_id(entry), 0, start, ids)
}

/// The events for the logs behind those of the main execution: the root's children behind all that
/// the inspector saw, and behind the debit's.
pub open spec fn credit_events<T>(
    entry: Entry<T>,
    logs: Seq<LogModel>,
    start: int,
    split: Option<Cip64LogSplit>,
    ids: Ids<T>,
) -> Seq<EventModel> {
    let range = main_range(logs.len(), split)->0;
    let root = root_index(entry.all_traces())->0;
    let placed = with_indexes(marked(entry, root), logs, start, range);
    let moved = with_room(placed, root_id(entry), range.0, ids);
    let credit = credit_position(moved, root_id(entry), range.0);
    hidden_events(logs, range.1, logs.len() as int, root_id(entry), credit, start, ids)
}

/// The main events of a reconciled entry, before and after the shift, mirror their logs.
proof fn lemma_main_events<T>(
    entry: Entry<T>,
    logs: Seq<LogModel>,
    hidden: bool,
    start: int,
    split: Option<Cip64LogSplit>,
    ids: Ids<T>,
) -> (parts: (Seq<EventModel>, Seq<EventModel>, Seq<EventModel>))
    requires
        is_reconciled(entry, logs, hidden, start, split, ids),
    ensures
        main_range(logs.len(), split) is Some,
        ({
            let range = main_range(logs.len(), split)->0;
            let (pre, main, post) = parts;
            &&& reconciled(entry, logs, hidden, start, split, ids).0.events == ordered(
                main + pre + post,
            )
            &&& main.len() == range.1 - range.0
            &&& main.len() == entry.events.len()
            &&& forall|i: int|
                0 <= i < main.len() ==> same_content(#[trigger] main[i], entry.events[i])
            &&& forall|i: int|
                0 <= i < main.len() ==> mirrors(#[trigger] main[i], logs, start, range.0 + i)
            &&& if hidden {
                &&& pre == debit_events(entry, logs, start, split, ids)
                &&& post == credit_events(entry, logs, start, split, ids)
                &&& pre.len() == range.0
                &&& post.len() == logs.len() - range.1
                &&& forall|i: int|
                    0 <= i < pre.len() ==> mirrors(#[trigger] pre[i], logs, start, i)
                &&& forall|i: int|
                    0 <= i < post.len() ==> mirrors(#[trigger] post[i], logs, start, range.1 + i)
            } else {
                pre.len() == 0 && post.len() == 0
            }
        }),
{
    let root = root_index(entry.all_traces())->0;
    let root_id = root_id(entry);
    let range = main_range(logs.len(), split)->0;
    let main_logs = logs.subrange(range.0, range.1);
    let current = if hidden {
        marked(entry, root)
    } else {
        entry
    };
    let placed = with_indexes(current, logs, start, range);
    lemma_no_mismatch(entry.events, main_logs, entry.events.len() as int);
    assert forall|i: int| 0 <= i < placed.events.len() implies mirrors(
        #[trigger] placed.events[i],
        logs,
        start,
        range.0 + i,
    ) by {
        assert(matches_log(entry.events[i], main_logs[i]));
        assert(main_logs[i] == logs[range.0 + i]);
    }
    if hidden {
        let moved = with_room(placed, root_id, range.0, ids);
        law_shift_keeps_records(placed, root_id, range.0, ids);
        assert forall|i: int| 0 <= i < moved.events.len() implies mirrors(
            #[trigger] moved.events[i],
            logs,
            start,
            range.0 + i,
        ) by {
            assert(mirrors(placed.events[i], logs, start, range.0 + i));
        }
        let credit = credit_position(moved, root_id, range.0);
        let pre = hidden_events(logs, 0, range.0, root_id, 0, start, ids);
        let post = hidden_events(logs, range.1, logs.len() as int, root_id, credit, start, ids);
        (pre, moved.events, post)
    } else {
        let none = Seq::<EventModel>::empty();
        assert(placed.events + none + none =~= placed.events);
        (none, placed.events, none)
    }
}

/// Where hidden logs are added, they are added once: the events are as many as the logs of the
/// receipt. Else the events are as many as before.
pub proof fn law_event_count<T>(
    entry: Entry<T>,
    logs: Seq<LogModel>,
    hidden: bool,
    start: int,
    split: Option<Cip64LogSplit>,
    ids: Ids<T>,
)
    requires
        is_reconciled(entry, logs, hidden, start, split, ids),
    ensures
        reconciled(entry, logs, hidden, start, split, ids).0.events.len() == if hidden {
            logs.len()
        } else {
            entry.events.len()
        },
{
    let (pre, main, post) = lemma_main_events(entry, logs, hidden, start, split, ids);
    law_order_exists(main + pre + post);
}

/// The events of a reconciled entry are ordered by index.
pub proof fn law_events_ordered<T>(
    entry: Entry<T>,
    logs: Seq<LogModel>,
    hidden: bool,
    start: int,
    split: Option<Cip64LogSplit>,
    ids: Ids<T>,
)
    requires
        is_reconciled(entry, logs, hidden, start, split, ids),
    ensures
        is_ordered(reconciled(entry, logs, hidden, start, split, ids).0.events),
{
    let (pre, main, post) = lemma_main_events(entry, logs, hidden, start, split, ids);
    law_order_exists(main + pre + post);
}

/// Two lists of which one has only smaller indexes can change places.
proof fn lemma_swap(smaller: Seq<EventModel>, larger: Seq<EventModel>, idx: int)
    requires
        forall|i: int, j: int|
            0 <= i < smaller.len() && 0 <= j < larger.len() ==> (#[trigger] smaller[i]).idx < (
            #[trigger] larger[j]).idx,
    ensures
        with_idx(larger + smaller, idx) == with_idx(smaller + larger, idx),
{
    lemma_with_idx_add(larger, smaller, idx);
    lemma_with_idx_add(smaller, larger, idx);
    let none = Seq::<EventModel>::empty();
    if exists|i: int| 0 <= i < smaller.len() && (#[trigger] smaller[i]).idx == idx {
        let i = choose|i: int| 0 <= i < smaller.len() && (#[trigger] smaller[i]).idx == idx;
        assert forall|j: int| 0 <= j < larger.len() implies (#[trigger] larger[j]).idx != idx by {
            assert(smaller[i].idx < larger[j].idx);
        }
        lemma_with_idx_none(larger, idx);
        assert(none + with_idx(smaller, idx) =~= with_idx(smaller, idx) + none);
    } else {
        lemma_with_idx_none(smaller, idx);
        assert(none + with_idx(larger, idx) =~= with_idx(larger, idx) + none);
    }
}

/// Where the indexes of the receipt's logs grow, the hidden events stand around the main ones.
proof fn lemma_parts_in_order(
    logs: Seq<LogModel>,
    hidden: bool,
    start: int,
    split: Option<Cip64LogSplit>,
    parts: (Seq<EventModel>, Seq<EventModel>, Seq<EventModel>),
)
    requires
        main_range(logs.len(), split) is Some,
        indexes_grow(logs, start),
        ({
            let range = main_range(logs.len(), split)->0;
            let (pre, main, post) = parts;
            &&& main.len() == range.1 - range.0
            &&& forall|i: int|
                0 <= i < main.len() ==> mirrors(#[trigger] main[i], logs, start, range.0 + i)
            &&& if hidden {
                &&& pre.len() == range.0
                &&& post.len() == logs.len() - range.1
                &&& forall|i: int|
                    0 <= i < pre.len() ==> mirrors(#[trigger] pre[i], logs, start, i)
                &&& forall|i: int|
                    0 <= i < post.len() ==> mirrors(#[trigger] post[i], logs, start, range.1 + i)
            } else {
                pre.len() == 0 && post.len() == 0
            }
        }),
    ensures
        ordered(parts.1 + parts.0 + parts.2) == parts.0 + parts.1 + parts.2,
        ({
            let range = main_range(logs.len(), split)->0;
            let after = parts.0 + parts.1 + parts.2;
            let first = if hidden {
                0
            } else {
                range.0
            };
            forall|i: int|
                0 <= i < after.len() ==> mirrors(#[trigger] after[i], logs, start, first + i)
        }),
{
    let (pre, main, post) = parts;
    let range = main_range(logs.len(), split)->0;
    let first = if hidden {
        0
    } else {
        range.0
    };
    let before = main + pre + post;
    let after = pre + main + post;
    assert forall|i: int| 0 <= i < after.len() implies mirrors(
        #[trigger] after[i],
        logs,
        start,
        first + i,
    ) by {
        if i < pre.len() {
            assert(after[i] == pre[i]);
        } else if i < pre.len() + main.len() {
            assert(after[i] == main[i - pre.len()]);
        } else {
            assert(after[i] == post[i - pre.len() - main.len()]);
        }
    }
    assert forall|i: int, j: int| 0 <= i < j < after.len() implies (#[trigger] after[i]).idx <= (
    #[trigger] after[j]).idx by {
        assert(mirrors(after[i], logs, start, first + i));
        assert(mirrors(after[j], logs, start, first + j));
        let left = logs[first + i];
        let right = logs[first + j];
    }
    assert forall|idx: int| #[trigger] with_idx(after, idx) == with_idx(before, idx) by {
        assert forall|i: int, j: int| 0 <= i < pre.len() && 0 <= j < main.len() implies (
        #[trigger] pre[i]).idx < (#[trigger] main[j]).idx by {
            assert(mirrors(pre[i], logs, start, i));
            assert(mirrors(main[j], logs, start, range.0 + j));
            let left = logs[i];
            let right = logs[range.0 + j];
        }
        lemma_swap(pre, main, idx);
        lemma_with_idx_add(pre + main, post, idx);
        lemma_with_idx_add(main + pre, post, idx);
    }
    assert(is_stable_order(before, after));
    law_order_exists(before);
    law_order_unique(before, after, ordered(before));
}

/// Where the indexes of the receipt's logs grow, the events of a reconciled entry come in the
/// receipt's order, one for each log: for all logs where hidden ones are added, else for those of
/// the main execution.
pub proof fn law_events_follow_receipt<T>(
    entry: Entry<T>,
    logs: Seq<LogModel>,
    hidden: bool,
    start: int,
    split: Option<Cip64LogSplit>,
    ids: Ids<T>,
)
    requires
        is_reconciled(entry, logs, hidden, start, split, ids),
        indexes_grow(logs, start),
    ensures
        main_range(logs.len(), split) is Some,
        ({
            let range = main_range(logs.len(), split)->0;
            let events = reconciled(entry, logs, hidden, start, split, ids).0.events;
            let first = if hidden {
                0
            } else {
                range.0
            };
            &&& events.len() == if hidden {
                logs.len() as int
            } else {
                range.1 - range.0
            }
            &&& forall|i: int|
                0 <= i < events.len() ==> mirrors(#[trigger] events[i], logs, start, first + i)
        }),
{
    let parts = lemma_main_events(entry, logs, hidden, start, split, ids);
    lemma_parts_in_order(logs, hidden, start, split, parts);
}

/// Where the indexes of the receipt's logs grow, a reconciled entry with hidden logs has the
/// debit's events first and the credit's last, all of them children of the root; what the
/// inspector saw stands between them.
pub proof fn law_hidden_events_around_main<T>(
    entry: Entry<T>,
    logs: Seq<LogModel>,
    start: int,
    split: Option<Cip64LogSplit>,
    ids: Ids<T>,
)
    requires
        is_reconciled(entry, logs, true, start, split, ids),
        indexes_grow(logs, start),
    ensures
        ({
            let events = reconciled(entry, logs, true, start, split, ids).0.events;
            let debit = debit_events(entry, logs, start, split, ids);
            let credit = credit_events(entry, logs, start, split, ids);
            &&& events.len() == debit.len() + entry.events.len() + credit.len()
            &&& events.take(debit.len() as int) == debit
            &&& forall|i: int|
                0 <= i < entry.events.len() ==> same_content(
                    events[debit.len() + i],
                    #[trigger] entry.events[i],
                )
            &&& events.skip((debit.len() + entry.events.len()) as int) == credit
            &&& forall|i: int|
                0 <= i < debit.len() ==> (#[trigger] debit[i]).parent_trace_id == root_id(entry)
                    && debit[i].pos_in_parent_trace == i
            &&& forall|i: int|
                0 <= i < credit.len() ==> (#[trigger] credit[i]).parent_trace_id == root_id(entry)
        }),
{
    let parts = lemma_main_events(entry, logs, true, start, split, ids);
    lemma_parts_in_order(logs, true, start, split, parts);
    let (debit, main, credit) = parts;
    let events = reconciled(entry, logs, true, start, split, ids).0.events;
    assert(events.take(debit.len() as int) =~= debit);
    assert forall|i: int| 0 <= i < entry.events.len() implies same_content(
        events[debit.len() + i],
        #[trigger] entry.events[i],
    ) by {
        assert(events[debit.len() + i] == main[i]);
    }
    assert(events.skip((debit.len() + entry.events.len()) as int) =~= credit);
}

/// Without hidden logs, or where the entry has no root, the frames stay as they are.
pub proof fn law_frames_stay<T>(
    entry: Entry<T>,
    logs: Seq<LogModel>,
    hidden: bool,
    start: int,
    split: Option<Cip64LogSplit>,
    ids: Ids<T>,
)
    requires
        !hidden || root_index(entry.all_traces()) is None,
    ensures
        reconciled(entry, logs, hidden, start, split, ids).0.all_traces() == entry.all_traces(),
{
}

/// No frame is added, dropped or reordered. With hidden logs the root has a storage change, also
/// where the entry is refused; no other frame's is touched.
pub proof fn law_root_storage_change<T>(
    entry: Entry<T>,
    logs: Seq<LogModel>,
    hidden: bool,
    start: int,
    split: Option<Cip64LogSplit>,
    ids: Ids<T>,
)
    ensures
        ({
            let before = entry.all_traces();
            let after = reconciled(entry, logs, hidden, start, split, ids).0.all_traces();
            &&& after.len() == before.len()
            &&& forall|i: int|
                0 <= i < after.len() ==> {
                    &&& (#[trigger] after[i]).tx_id == before[i].tx_id
                    &&& after[i].trace_address == before[i].trace_address
                    &&& after[i].rest == before[i].rest
                    &&& after[i].storage_change == (before[i].storage_change || hidden
                        && root_index(before) == Some(i))
                }
        }),
{
    let before = entry.all_traces();
    match root_index(before) {
        None => {},
        Some(root) => {
            assert(is_root_at(before, root));
            let current = if hidden {
                marked(entry, root)
            } else {
                entry
            };
            assert forall|i: int| 0 <= i < before.len() implies {
                &&& (#[trigger] current.all_traces()[i]).tx_id == before[i].tx_id
                &&& current.all_traces()[i].trace_address == before[i].trace_address
                &&& current.all_traces()[i].rest == before[i].rest
                &&& current.all_traces()[i].storage_change == (before[i].storage_change || hidden
                    && i == root)
            } by {
                if i < entry.traces.len() {
                    assert(current.all_traces()[i] == current.traces[i]);
                    assert(before[i] == entry.traces[i]);
                } else {
                    let k = i - entry.traces.len();
                    assert(current.all_traces()[i] == current.error_traces[k]);
                    assert(before[i] == entry.error_traces[k]);
                }
            }
            if hidden && refusal(entry.events, logs, split) is None {
                let range = main_range(logs.len(), split)->0;
                let placed = with_indexes(current, logs, start, range);
                let root_id = before[root].id;
                law_shift_keeps_records(placed, root_id, range.0, ids);
                let after = reconciled(entry, logs, hidden, start, split, ids).0.all_traces();
                let moved = with_room(placed, root_id, range.0, ids);
                assert(after == moved.all_traces());
                assert forall|i: int| 0 <= i < after.len() implies {
                    &&& (#[trigger] after[i]).tx_id == current.all_traces()[i].tx_id
                    &&& after[i].trace_address == current.all_traces()[i].trace_address
                    &&& after[i].rest == current.all_traces()[i].rest
                    &&& after[i].storage_change == current.all_traces()[i].storage_change
                } by {
                    if i < entry.traces.len() {
                        assert(after[i] == moved.traces[i]);
                        assert(current.all_traces()[i] == placed.traces[i]);
                    } else {
                        let k = i - entry.traces.len();
                        assert(after[i] == moved.error_traces[k]);
                        assert(current.all_traces()[i] == placed.error_traces[k]);
                    }
                }
            }
        },
    }
}

/// A refused entry keeps its events and its reverted events, but for the indexes of events before
/// a mismatch. It keeps its frames too, but for the storage change of the root.
pub proof fn law_refused_keeps_events<T>(
    entry: Entry<T>,
    logs: Seq<LogModel>,
    hidden: bool,
    start: int,
    split: Option<Cip64LogSplit>,
    ids: Ids<T>,
)
    requires
        reconciled(entry, logs, hidden, start, split, ids).1 is Some,
    ensures
        ({
            let (after, error) = reconciled(entry, logs, hidden, start, split, ids);
            let indexed = match error->0 {
                ReconcileError::Mismatch { offset } => offset as int,
                _ => 0,
            };
            &&& after.error_events == entry.error_events
            &&& after.events.len() == entry.events.len()
            &&& forall|i: int|
                0 <= i < after.events.len() ==> (#[trigger] after.events[i]) == (EventModel {
                    idx: after.events[i].idx,
                    ..entry.events[i]
                })
            &&& forall|i: int|
                indexed <= i < after.events.len() ==> (#[trigger] after.events[i]) == entry.events[i]
            &&& after.all_traces() == if hidden {
                marked(entry, root_index(entry.all_traces())->0).all_traces()
            } else {
                entry.all_traces()
            }
        }),
{
}

/// The first of the events at or after an index, in a list that is ordered.
proof fn lemma_next_in_order(events: Seq<EventModel>, idx: int, i: int)
    requires
        is_ordered(events),
        0 <= i < events.len(),
        events[i].idx >= idx,
        forall|j: int| 0 <= j < i ==> (#[trigger] events[j]).idx < idx,
    ensures
        is_next_event(events, idx, i),
        forall|k: int| #[trigger] is_next_event(events, idx, k) ==> k == i,
{
}

/// The first place in a list at or behind which an event has an index of at least `idx`.
proof fn lemma_first_at_least(events: Seq<EventModel>, idx: int, from: int) -> (i: int)
    requires
        0 <= from <= events.len(),
        forall|j: int| 0 <= j < from ==> (#[trigger] events[j]).idx < idx,
    ensures
        from <= i <= events.len(),
        i < events.len() ==> events[i].idx >= idx,
        forall|j: int| 0 <= j < i ==> (#[trigger] events[j]).idx < idx,
    decreases events.len() - from,
{
    if from == events.len() || events[from].idx >= idx {
        from
    } else {
        lemma_first_at_least(events, idx, from + 1)
    }
}

/// Where the successful events come in the order of both counts, a reverted event's index lies
/// behind those of the events before it, and not behind those of the events after it.
pub proof fn law_reverted_between(
    events: Seq<EventModel>,
    canonical: Seq<EventModel>,
    idx: int,
    fallback: int,
)
    requires
        events.len() == canonical.len(),
        is_ordered(events),
        forall|i: int, j: int|
            0 <= i < j < canonical.len() ==> (#[trigger] canonical[i]).idx < (
            #[trigger] canonical[j]).idx,
        forall|i: int| 0 <= i < canonical.len() ==> (#[trigger] canonical[i]).idx < usize::MAX,
    ensures
        forall|i: int|
            0 <= i < events.len() && (#[trigger] events[i]).idx < idx ==> canonical[i].idx
                < reverted_index(events, canonical, idx, fallback),
        forall|i: int|
            0 <= i < events.len() && (#[trigger] events[i]).idx >= idx ==> reverted_index(
                events,
                canonical,
                idx,
                fallback,
            ) <= canonical[i].idx,
        events.len() == 0 ==> reverted_index(events, canonical, idx, fallback) == fallback,
{
    let next = lemma_first_at_least(events, idx, 0);
    if next < events.len() {
        lemma_next_in_order(events, idx, next);
        assert(reverted_index(events, canonical, idx, fallback) == canonical[next].idx);
    } else {
        assert forall|i: int| !is_next_event(events, idx, i) by {
            if 0 <= i < events.len() {
                assert(events[i].idx < idx);
            }
        }
        if events.len() > 0 {
            let last = events.len() - 1;
            assert(is_last_event(events, last));
            let chosen = choose|i: int| is_last_event(events, i);
            assert(is_last_event(events, chosen));
            assert(chosen == last) by {
                assert(events[last].idx < events[chosen].idx || last <= chosen);
                if chosen < last {
                    assert(events[chosen].idx <= events[last].idx);
                }
            }
            assert(reverted_index(events, canonical, idx, fallback) == canonical[last].idx + 1);
        } else {
            assert forall|i: int| !is_last_event(events, i) by {}
        }
    }
}

/// Where the successful events come in the order of both counts, reverted events keep theirs.
pub proof fn law_reverted_order(
    events: Seq<EventModel>,
    canonical: Seq<EventModel>,
    left: int,
    right: int,
    fallback: int,
)
    requires
        events.len() == canonical.len(),
        is_ordered(events),
        forall|i: int, j: int|
            0 <= i < j < canonical.len() ==> (#[trigger] canonical[i]).idx < (
            #[trigger] canonical[j]).idx,
        forall|i: int| 0 <= i < canonical.len() ==> (#[trigger] canonical[i]).idx < usize::MAX,
        left <= right,
    ensures
        reverted_index(events, canonical, left, fallback) <= reverted_index(
            events,
            canonical,
            right,
            fallback,
        ),
{
    law_reverted_between(events, canonical, left, fallback);
    law_reverted_between(events, canonical, right, fallback);
    let next = lemma_first_at_least(events, right, 0);
    if next < events.len() {
        lemma_next_in_order(events, right, next);
        assert(events[next].idx >= left);
    } else if events.len() > 0 {
        let last = events.len() - 1;
        assert(events[last].idx < right);
        let first = lemma_first_at_least(events, left, 0);
        if first < events.len() {
            lemma_next_in_order(events, left, first);
            assert(events[last].idx >= left) by {
                assert(first == last || events[first].idx <= events[last].idx);
            }
        } else {
            assert forall|i: int| !is_next_event(events, left, i) by {
                if 0 <= i < events.len() {
                    assert(events[i].idx < left);
                }
            }
            assert forall|i: int| !is_next_event(events, right, i) by {
                if 0 <= i < events.len() {
                    assert(events[i].idx < right);
                }
            }
        }
    }
}

/// The reverted events of a reconciled entry have the indexes that the successful ones give them,
/// with or without hidden logs.
pub proof fn law_reverted_events<T>(
    entry: Entry<T>,
    logs: Seq<LogModel>,
    hidden: bool,
    start: int,
    split: Option<Cip64LogSplit>,
    ids: Ids<T>,
)
    requires
        is_reconciled(entry, logs, hidden, start, split, ids),
    ensures
        ({
            let range = main_range(logs.len(), split)->0;
            let canonical = with_indexes(entry, logs, start, range).events;
            let after = reconciled(entry, logs, hidden, start, split, ids).0.error_events;
            &&& after.len() == entry.error_events.len()
            &&& forall|i: int|
                0 <= i < after.len() ==> (#[trigger] after[i]).idx == reverted_index(
                    entry.events,
                    canonical,
                    entry.error_events[i].idx,
                    start + range.0,
                )
        }),
{
    let range = main_range(logs.len(), split)->0;
    let root = root_index(entry.all_traces())->0;
    if hidden {
        let placed = with_indexes(marked(entry, root), logs, start, range);
        law_shift_keeps_records(placed, root_id(entry), range.0, ids);
        let after = reconciled(entry, logs, hidden, start, split, ids).0.error_events;
        assert forall|i: int| 0 <= i < after.len() implies (#[trigger] after[i]).idx
            == placed.error_events[i].idx by {}
    }
}

/// Where the indexes of the receipt count its logs and fit, a reverted event stands behind the
/// debit's logs and not behind the credit's.
pub proof fn law_reverted_between_fee_logs<T>(
    entry: Entry<T>,
    logs: Seq<LogModel>,
    hidden: bool,
    start: int,
    split: Option<Cip64LogSplit>,
    ids: Ids<T>,
)
    requires
        is_reconciled(entry, logs, hidden, start, split, ids),
        forall|i: int|
            0 <= i < logs.len() ==> canonical_index(#[trigger] logs[i], start + i) == start + i
                <= usize::MAX,
    ensures
        main_range(logs.len(), split) is Some,
        ({
            let range = main_range(logs.len(), split)->0;
            let after = reconciled(entry, logs, hidden, start, split, ids).0.error_events;
            forall|i: int|
                0 <= i < after.len() ==> start + range.0 <= (#[trigger] after[i]).idx <= start
                    + range.1
        }),
{
    law_reverted_events(entry, logs, hidden, start, split, ids);
    let range = main_range(logs.len(), split)->0;
    let canonical = with_indexes(entry, logs, start, range).events;
    let after = reconciled(entry, logs, hidden, start, split, ids).0.error_events;
    assert forall|k: int| 0 <= k < canonical.len() implies (#[trigger] canonical[k]).idx == start
        + range.0 + k by {
        assert(logs.subrange(range.0, range.1)[k] == logs[range.0 + k]);
    }
    assert forall|i: int| 0 <= i < after.len() implies start + range.0 <= (
    #[trigger] after[i]).idx <= start + range.1 by {
        let idx = entry.error_events[i].idx;
        if exists|k: int| is_next_event(entry.events, idx, k) {
            let k = choose|k: int| is_next_event(entry.events, idx, k);
            assert(canonical[k].idx == start + range.0 + k);
        } else if exists|k: int| is_last_event(entry.events, k) {
            let k = choose|k: int| is_last_event(entry.events, k);
            assert(canonical[k].idx == start + range.0 + k);
        }
    }
}

/// Where no moved frame is given the root's identifier, the table does not lead to it.
proof fn lemma_table_avoids_root<T>(
    traces: Seq<TraceModel<T>>,
    root_id: Seq<char>,
    shift: int,
    ids: Ids<T>,
    count: int,
)
    requires
        avoids_root(traces, root_id, shift, ids),
        0 <= count <= traces.len(),
    ensures
        forall|id: Seq<char>|
            changed_ids(traces.take(count), root_id, shift, Map::empty(), ids).contains_key(id)
                ==> #[trigger] changed_ids(
                traces.take(count),
                root_id,
                shift,
                Map::empty(),
                ids,
            )[id] != root_id,
    decreases count,
{
    if count > 0 {
        lemma_table_avoids_root(traces, root_id, shift, ids, count - 1);
        assert(traces.take(count).drop_last() =~= traces.take(count - 1));
        assert(traces.take(count).last() == traces[count - 1]);
        if is_moved_at(traces, root_id, shift, ids, count - 1) {
            assert(moved_traces(traces, root_id, shift, Map::empty(), ids)[count - 1].id
                != root_id);
        }
    }
}

/// The credit's first log stands behind the room for the debit's logs, and behind every other child
/// of the root.
///
/// Where positions are not negative, and no moved frame is given the root's identifier, the other
/// children of the root stand behind the room too.
pub proof fn law_hidden_positions_free<T>(
    entry: Entry<T>,
    root_id: Seq<char>,
    room: int,
    ids: Ids<T>,
)
    ensures
        ({
            let after = with_room(entry, root_id, room, ids);
            let credit = credit_position(after, root_id, room);
            let settled = {
                &&& room >= 0
                &&& forall|i: int|
                    0 <= i < links(entry).len() ==> (#[trigger] links(entry)[i]).1 >= 0
                &&& avoids_root(entry.all_traces(), root_id, room, ids)
            };
            &&& credit >= room
            &&& forall|i: int|
                0 <= i < links(after).len() && (#[trigger] links(after)[i]).0 == root_id
                    ==> links(after)[i].1 < credit && (settled ==> room <= links(after)[i].1)
        }),
{
    let after = with_room(entry, root_id, room, ids);
    lemma_next_position_exists(links(after), root_id);
    assert(is_next_position(links(after), root_id, next_position(after, root_id)));
    if room >= 0 && (forall|i: int|
        0 <= i < links(entry).len() ==> (#[trigger] links(entry)[i]).1 >= 0) && avoids_root(
        entry.all_traces(),
        root_id,
        room,
        ids,
    ) {
        lemma_children_behind_room(entry, root_id, room, ids);
    }
}

/// Where positions are not negative, and no moved frame is given the root's identifier, the
/// children of the root stand behind the room for the debit's logs.
proof fn lemma_children_behind_room<T>(
    entry: Entry<T>,
    root_id: Seq<char>,
    room: int,
    ids: Ids<T>,
)
    requires
        room >= 0,
        forall|i: int| 0 <= i < links(entry).len() ==> (#[trigger] links(entry)[i]).1 >= 0,
        avoids_root(entry.all_traces(), root_id, room, ids),
    ensures
        ({
            let after = with_room(entry, root_id, room, ids);
            forall|i: int|
                0 <= i < links(after).len() && (#[trigger] links(after)[i]).0 == root_id ==> room
                    <= links(after)[i].1
        }),
{
    let after = with_room(entry, root_id, room, ids);
    let before_links = links(entry);
    let after_links = links(after);
    assert forall|i: int| 0 <= i < after_links.len() && (#[trigger] after_links[i]).0
        == root_id implies room <= after_links[i].1 by {
        assert(before_links[i].1 >= 0);
        if room != 0 {
            let all = entry.all_traces();
            let n = all.len() as int;
            let e = n + entry.events.len();
            lemma_shift_is_one_list(entry, root_id, room, ids);
            if i < n {
                lemma_table_avoids_root(all, root_id, room, ids, i);
                assert(after_links[i] == (
                    after.all_traces()[i].parent_trace_id,
                    after.all_traces()[i].pos_in_parent_trace,
                ));
                assert(before_links[i] == (all[i].parent_trace_id, all[i].pos_in_parent_trace));
            } else {
                lemma_table_avoids_root(all, root_id, room, ids, n);
                assert(all.take(n) =~= all);
                if i < e {
                    let k = i - n;
                    assert(after_links[i] == (
                        after.events[k].parent_trace_id,
                        after.events[k].pos_in_parent_trace,
                    ));
                    assert(before_links[i] == (
                        entry.events[k].parent_trace_id,
                        entry.events[k].pos_in_parent_trace,
                    ));
                } else {
                    let k = i - e;
                    assert(after_links[i] == (
                        after.error_events[k].parent_trace_id,
                        after.error_events[k].pos_in_parent_trace,
                    ));
                    assert(before_links[i] == (
                        entry.error_events[k].parent_trace_id,
                        entry.error_events[k].pos_in_parent_trace,
                    ));
                }
            }
        }
    }
}

/// The events for the hidden logs are children of the root, and no two of them share a position:
/// the debit's have the first positions, the credit's come behind them one by one.
pub proof fn law_hidden_events_share_no_position<T>(
    entry: Entry<T>,
    logs: Seq<LogModel>,
    start: int,
    split: Option<Cip64LogSplit>,
    ids: Ids<T>,
)
    requires
        main_range(logs.len(), split) is Some,
    ensures
        ({
            let debit = debit_events(entry, logs, start, split, ids);
            let credit = credit_events(entry, logs, start, split, ids);
            &&& forall|i: int|
                0 <= i < debit.len() ==> (#[trigger] debit[i]).parent_trace_id == root_id(entry)
                    && debit[i].pos_in_parent_trace == i
            &&& forall|i: int|
                0 <= i < credit.len() ==> (#[trigger] credit[i]).parent_trace_id == root_id(entry)
                    && credit[i].pos_in_parent_trace == credit[0].pos_in_parent_trace + i
                    && credit[i].pos_in_parent_trace >= debit.len()
        }),
{
}

/// Each event stands for a log of the receipt between `first` and `last`, and each such log for one
/// event: the event at `i` stands for the log at `pairing[i]`.
pub open spec fn is_pairing(
    events: Seq<EventModel>,
    logs: Seq<LogModel>,
    start: int,
    first: int,
    last: int,
    pairing: Seq<int>,
) -> bool {
    &&& events.len() == last - first
    &&& pairing.len() == events.len()
    &&& pairing.no_duplicates()
    &&& forall|k: int| first <= k < last ==> #[trigger] pairing.contains(k)
    &&& forall|i: int|
        0 <= i < events.len() ==> first <= #[trigger] pairing[i] < last && mirrors(
            events[i],
            logs,
            start,
            pairing[i],
        )
}

/// Whatever indexes the node reports, the events of a reconciled entry and the logs of its receipt
/// belong together one by one: all logs where hidden ones are added, else those of the main
/// execution.
pub proof fn law_events_pair_with_logs<T>(
    entry: Entry<T>,
    logs: Seq<LogModel>,
    hidden: bool,
    start: int,
    split: Option<Cip64LogSplit>,
    ids: Ids<T>,
) -> (pairing: Seq<int>)
    requires
        is_reconciled(entry, logs, hidden, start, split, ids),
    ensures
        main_range(logs.len(), split) is Some,
        ({
            let range = main_range(logs.len(), split)->0;
            is_pairing(
                reconciled(entry, logs, hidden, start, split, ids).0.events,
                logs,
                start,
                if hidden {
                    0
                } else {
                    range.0
                },
                if hidden {
                    logs.len() as int
                } else {
                    range.1
                },
                pairing,
            )
        }),
{
    let (pre, main, post) = lemma_main_events(entry, logs, hidden, start, split, ids);
    let range = main_range(logs.len(), split)->0;
    let before = main + pre + post;
    let after = ordered(before);
    let places = law_order_rearranges(before);
    let m = main.len() as int;
    let a = pre.len() as int;
    let first = if hidden {
        0
    } else {
        range.0
    };
    let last = if hidden {
        logs.len() as int
    } else {
        range.1
    };
    let origin = |k: int|
        if k < m {
            range.0 + k
        } else if k < m + a {
            k - m
        } else {
            k
        };
    let pairing = Seq::new(after.len(), |i: int| origin(places[i]));
    assert forall|i: int| 0 <= i < after.len() implies first <= #[trigger] pairing[i] < last
        && mirrors(after[i], logs, start, pairing[i]) by {
        let k = places[i];
        assert(after[i] == before[k]);
        if k < m {
            assert(before[k] == main[k]);
        } else if k < m + a {
            assert(before[k] == pre[k - m]);
        } else {
            assert(before[k] == post[k - m - a]);
            assert(mirrors(post[k - m - a], logs, start, range.1 + (k - m - a)));
        }
    }
    assert forall|i: int, j: int|
        0 <= i < pairing.len() && 0 <= j < pairing.len() && i != j implies pairing[i]
        != pairing[j] by {
        assert(places[i] != places[j]);
        assert(0 <= places[i] < before.len());
        assert(0 <= places[j] < before.len());
    }
    assert forall|k: int| first <= k < last implies #[trigger] pairing.contains(k) by {
        let place = if k < range.0 {
            m + k
        } else if k < range.1 {
            k - range.0
        } else {
            k
        };
        assert(places.contains(place));
        let i = places.index_of(place);
        assert(pairing[i] == k);
    }
    pairing
}

} // verus!
