//! What a reconciliation makes of an entry, told from the receipt and the split.
//!
//! The laws here speak of the fields of the records, the logs and the split, and of what comes out.

use vstd::prelude::*;

use crate::event::{comparable, log_event, matches_log};
use crate::index::{
    comparison_defined, first_mismatch, is_first_mismatch, is_last_event, is_next_event,
    matches_before,
};
use crate::log_laws::{
    index_of_log, law_event_made_for_log, law_match_compares_everything, stands_for,
};
use crate::move_laws::{event_follows, frame_follows, law_shift_follows_the_tree};
use crate::order::{law_order_exists, law_order_rearranges, ordered};
use crate::position::{is_next_position, lemma_next_position_exists, links, next_position};
use crate::primitives::decimal_text;
use crate::reconcile::{
    credit_position, hidden_events, hidden_events_fit, is_root_at, main_range, marked,
    reconcilable, reconcile_receipt_events, reconciled, refusal, refused, root_index,
    try_reconcile, with_indexes, with_room, ReconcileError,
};
use crate::record::{
    computes_ids, entry_model, is_id_scheme, log_models, Cip64LogSplit, DebankEvent, DebankTrace,
    Entry, EventModel, Ids, Log, LogModel, TraceEntry, TraceModel,
};
use crate::rekey::shift_fits;

verus! {

/// How many logs the debit left at the head of the receipt.
pub open spec fn debit_count(split: Option<Cip64LogSplit>) -> int {
    match split {
        Some(split) => split.pre as int,
        None => 0,
    }
}

/// How many logs the credit left at the end of the receipt.
pub open spec fn credit_count(split: Option<Cip64LogSplit>) -> int {
    match split {
        Some(split) => split.post as int,
        None => 0,
    }
}

/// The frame at `root` is the first without a path.
pub open spec fn is_first_without_path<T>(traces: Seq<TraceModel<T>>, root: int) -> bool {
    &&& 0 <= root < traces.len()
    &&& traces[root].trace_address.len() == 0
    &&& forall|i: int| 0 <= i < root ==> (#[trigger] traces[i]).trace_address.len() > 0
}

/// The event at `k` stands for the log of the main execution at `k`: the logs of the main execution
/// are those behind the debit's.
pub open spec fn main_event_agrees<T>(
    entry: Entry<T>,
    logs: Seq<LogModel>,
    split: Option<Cip64LogSplit>,
    k: int,
) -> bool {
    stands_for(entry.events[k], logs[debit_count(split) + k])
}

/// The events before the one at `offset` stand for their logs.
pub open spec fn agrees_before<T>(
    entry: Entry<T>,
    logs: Seq<LogModel>,
    split: Option<Cip64LogSplit>,
    offset: int,
) -> bool {
    forall|k: int| 0 <= k < offset ==> #[trigger] main_event_agrees(entry, logs, split, k)
}

/// The inspector saw an event for each log of the main execution, and each agrees with its log.
pub open spec fn receipt_agrees<T>(
    entry: Entry<T>,
    logs: Seq<LogModel>,
    split: Option<Cip64LogSplit>,
) -> bool {
    &&& debit_count(split) + entry.events.len() + credit_count(split) == logs.len()
    &&& forall|k: int|
        0 <= k < entry.events.len() ==> #[trigger] main_event_agrees(entry, logs, split, k)
}

/// There is one root.
proof fn lemma_root<T>(traces: Seq<TraceModel<T>>, root: int)
    requires
        is_first_without_path(traces, root),
    ensures
        root_index(traces) == Some(root),
{
    assert(is_root_at(traces, root));
    let other = choose|i: int| is_root_at(traces, i);
    assert(is_root_at(traces, other));
    if other < root {
        assert(traces[other].trace_address.len() > 0);
    } else if root < other {
        assert(traces[root].trace_address.len() != 0);
    }
}

/// An entry in which every frame has a path is left as it is, and is not refused.
pub proof fn law_entry_without_root_is_left_alone<T>(
    entry: Entry<T>,
    logs: Seq<LogModel>,
    hidden: bool,
    start: int,
    split: Option<Cip64LogSplit>,
    ids: Ids<T>,
)
    requires
        forall|i: int|
            0 <= i < (entry.traces + entry.error_traces).len() ==> (#[trigger] (entry.traces
                + entry.error_traces)[i]).trace_address.len() > 0,
    ensures
        reconciled(entry, logs, hidden, start, split, ids) == (entry, None::<ReconcileError>),
{
    let all = entry.traces + entry.error_traces;
    assert forall|i: int| !is_root_at(entry.all_traces(), i) by {
        if 0 <= i < all.len() {
            assert(all[i].trace_address.len() > 0);
        }
    }
}

/// The first mismatch among the events is where they first disagree with the logs behind the
/// debit's.
proof fn lemma_disagreement<T>(
    entry: Entry<T>,
    logs: Seq<LogModel>,
    split: Option<Cip64LogSplit>,
)
    requires
        debit_count(split) + entry.events.len() + credit_count(split) == logs.len(),
    ensures
        ({
            let pre = debit_count(split);
            let main = logs.subrange(pre, pre + entry.events.len());
            &&& main_range(logs.len(), split) == Some((pre, pre + entry.events.len()))
            &&& forall|k: int|
                0 <= k < entry.events.len() ==> (matches_log(#[trigger] entry.events[k], main[k])
                    <==> main_event_agrees(entry, logs, split, k))
            &&& receipt_agrees(entry, logs, split) <==> first_mismatch(entry.events, main) is None
            &&& forall|offset: int| #[trigger]
                is_first_mismatch(entry.events, main, offset) ==> first_mismatch(
                    entry.events,
                    main,
                ) == Some(offset)
        }),
{
    let pre = debit_count(split);
    let events = entry.events;
    let main = logs.subrange(pre, pre + events.len());
    assert forall|k: int| 0 <= k < events.len() implies (matches_log(#[trigger] events[k], main[k])
        <==> main_event_agrees(entry, logs, split, k)) by {
        assert(main[k] == logs[pre + k]);
        law_match_compares_everything(events[k], main[k]);
    }
    assert forall|offset: int| #[trigger]
        is_first_mismatch(events, main, offset) implies first_mismatch(events, main) == Some(
        offset,
    ) by {
        let other = choose|i: int| is_first_mismatch(events, main, i);
        assert(is_first_mismatch(events, main, other));
        if other < offset {
            assert(matches_log(events[other], main[other]));
        } else if offset < other {
            assert(matches_log(events[offset], main[offset]));
        }
    }
    if receipt_agrees(entry, logs, split) {
        assert forall|offset: int| !is_first_mismatch(events, main, offset) by {
            if 0 <= offset < events.len() {
                assert(main_event_agrees(entry, logs, split, offset));
            }
        }
    } else {
        let k = choose|k: int|
            0 <= k < events.len() && !(#[trigger] main_event_agrees(entry, logs, split, k));
        lemma_first_disagreement(events, main, 0, k);
    }
}

/// Where an event differs from its log, one is the first.
proof fn lemma_first_disagreement(
    events: Seq<EventModel>,
    main: Seq<LogModel>,
    from: int,
    k: int,
)
    requires
        0 <= from <= k < events.len(),
        matches_before(events, main, from),
        !matches_log(events[k], main[k]),
    ensures
        exists|offset: int| is_first_mismatch(events, main, offset),
    decreases k - from,
{
    if matches_log(events[from], main[from]) {
        lemma_first_disagreement(events, main, from + 1, k);
    } else {
        assert(is_first_mismatch(events, main, from));
    }
}

/// An entry with a root is refused only for a cause: the receipt has fewer logs than the debit and
/// the credit left, or the logs between those are not as many as the inspector's events, or one of
/// those events differs from its log. Each cause is told with its numbers, the first that holds.
pub proof fn law_refused_only_for_a_cause<T>(
    entry: Entry<T>,
    logs: Seq<LogModel>,
    hidden: bool,
    start: int,
    split: Option<Cip64LogSplit>,
    ids: Ids<T>,
    root: int,
)
    requires
        is_first_without_path(entry.traces + entry.error_traces, root),
    ensures
        ({
            let pre = debit_count(split);
            let post = credit_count(split);
            let error = reconciled(entry, logs, hidden, start, split, ids).1;
            &&& error is None <==> receipt_agrees(entry, logs, split)
            &&& pre + post > logs.len() ==> error == Some(
                ReconcileError::Split {
                    logs: logs.len() as usize,
                    pre: pre as usize,
                    post: post as usize,
                },
            )
            &&& pre + post <= logs.len() && pre + post + entry.events.len() != logs.len()
                ==> error == Some(
                ReconcileError::Count {
                    inspector: entry.events.len() as usize,
                    receipt: (logs.len() - pre - post) as usize,
                },
            )
            &&& forall|offset: int|
                pre + post + entry.events.len() == logs.len() && 0 <= offset < entry.events.len()
                    && !(#[trigger] main_event_agrees(entry, logs, split, offset))
                    && agrees_before(entry, logs, split, offset)
                    ==> error == Some(ReconcileError::Mismatch { offset: offset as usize })
        }),
{
    let pre = debit_count(split);
    let post = credit_count(split);
    let error = reconciled(entry, logs, hidden, start, split, ids).1;
    assert(entry.all_traces() == entry.traces + entry.error_traces);
    lemma_root(entry.all_traces(), root);
    if pre + post + entry.events.len() == logs.len() {
        let main = logs.subrange(pre, pre + entry.events.len());
        lemma_disagreement(entry, logs, split);
        assert forall|offset: int|
            0 <= offset < entry.events.len() && !(#[trigger] main_event_agrees(
                entry,
                logs,
                split,
                offset,
            )) && agrees_before(entry, logs, split, offset) implies error == Some(
            ReconcileError::Mismatch { offset: offset as usize },
        ) by {
            assert(!matches_log(entry.events[offset], main[offset]));
            assert forall|i: int| 0 <= i < offset implies matches_log(
                #[trigger] entry.events[i],
                main[i],
            ) by {
                assert(main_event_agrees(entry, logs, split, i));
            }
            assert(is_first_mismatch(entry.events, main, offset));
        }
    }
}

/// The frames with a storage change set for the root, where its fee hooks changed storage.
pub open spec fn with_root_change<T>(
    traces: Seq<TraceModel<T>>,
    root: int,
    hidden: bool,
) -> Seq<TraceModel<T>> {
    Seq::new(
        traces.len(),
        |i: int|
            TraceModel {
                storage_change: traces[i].storage_change || hidden && i == root,
                ..traces[i]
            },
    )
}

/// Marking the root sets its storage change.
proof fn lemma_marked<T>(entry: Entry<T>, root: int, hidden: bool)
    requires
        0 <= root < entry.all_traces().len(),
    ensures
        ({
            let current = if hidden {
                marked(entry, root)
            } else {
                entry
            };
            &&& current.traces.len() == entry.traces.len()
            &&& current.error_traces.len() == entry.error_traces.len()
            &&& current.events == entry.events
            &&& current.error_events == entry.error_events
            &&& current.all_traces() == with_root_change(entry.all_traces(), root, hidden)
        }),
{
    let current = if hidden {
        marked(entry, root)
    } else {
        entry
    };
    let wanted = with_root_change(entry.all_traces(), root, hidden);
    assert forall|i: int| 0 <= i < wanted.len() implies current.all_traces()[i] == wanted[i] by {
        if i < entry.traces.len() {
            assert(current.all_traces()[i] == current.traces[i]);
            assert(entry.all_traces()[i] == entry.traces[i]);
        } else {
            let k = i - entry.traces.len();
            assert(current.all_traces()[i] == current.error_traces[k]);
            assert(entry.all_traces()[i] == entry.error_traces[k]);
        }
    }
    assert(current.all_traces() =~= wanted);
}

/// What is left of a refused entry: its frames, but for the storage change of the root; its
/// reverted events; and its events, of which those before a mismatch have the indexes of their logs
/// already.
pub proof fn law_refused_entry_is_left<T>(
    entry: Entry<T>,
    logs: Seq<LogModel>,
    hidden: bool,
    start: int,
    split: Option<Cip64LogSplit>,
    ids: Ids<T>,
    root: int,
)
    requires
        is_first_without_path(entry.traces + entry.error_traces, root),
        !receipt_agrees(entry, logs, split),
    ensures
        ({
            let pre = debit_count(split);
            let (after, error) = reconciled(entry, logs, hidden, start, split, ids);
            let compared = match error {
                Some(ReconcileError::Mismatch { offset }) => offset as int,
                _ => 0,
            };
            &&& after.traces.len() == entry.traces.len()
            &&& after.traces + after.error_traces == with_root_change(
                entry.traces + entry.error_traces,
                root,
                hidden,
            )
            &&& after.error_events == entry.error_events
            &&& after.events.len() == entry.events.len()
            &&& forall|k: int|
                0 <= k < entry.events.len() ==> (#[trigger] after.events[k]) == if k < compared {
                    EventModel {
                        idx: index_of_log(logs[pre + k], start, pre + k),
                        ..entry.events[k]
                    }
                } else {
                    entry.events[k]
                }
        }),
{
    let pre = debit_count(split);
    let all = entry.traces + entry.error_traces;
    assert(entry.all_traces() == all);
    lemma_root(all, root);
    lemma_marked(entry, root, hidden);
    let (after, error) = reconciled(entry, logs, hidden, start, split, ids);
    assert(error is Some) by {
        law_refused_only_for_a_cause(entry, logs, hidden, start, split, ids, root);
    }
    let current = if hidden {
        marked(entry, root)
    } else {
        entry
    };
    assert(refusal(entry.events, logs, split) == error);
    assert(after == refused(current, logs, start, split, error->0));
    assert(after.traces == current.traces);
    assert(after.error_traces == current.error_traces);
    assert(after.traces + after.error_traces == current.all_traces());
    match error->0 {
        ReconcileError::Mismatch { offset } => {
            let range = main_range(logs.len(), split)->0;
            assert(range.0 == pre);
            let main = logs.subrange(range.0, range.1);
            assert forall|k: int| 0 <= k < entry.events.len() implies (#[trigger] after.events[k])
                == if k < offset {
                EventModel {
                    idx: index_of_log(logs[pre + k], start, pre + k),
                    ..entry.events[k]
                }
            } else {
                entry.events[k]
            } by {
                assert(main[k] == logs[pre + k]);
            }
        },
        _ => {
            assert(after == current);
        },
    }
}

/// What a reconciliation makes of an event of the inspector, but for its index: where there is room
/// for the debit's logs to make, the event follows its parent.
pub open spec fn event_settles<T>(
    before: EventModel,
    after: EventModel,
    traces: Seq<TraceModel<T>>,
    moved: Seq<TraceModel<T>>,
    root_id: Seq<char>,
    room: int,
    ids: Ids<T>,
) -> bool {
    if room == 0 {
        after == before
    } else {
        event_follows(before, after, traces, moved, root_id, room, ids)
    }
}

/// How many positions the debit's logs take at the head of the root.
pub open spec fn room_for_debit(hidden: bool, split: Option<Cip64LogSplit>) -> int {
    if hidden {
        debit_count(split)
    } else {
        0
    }
}

/// The entry with its indexes, and with room for the debit's logs.
spec fn entry_with_room<T>(
    entry: Entry<T>,
    logs: Seq<LogModel>,
    hidden: bool,
    start: int,
    split: Option<Cip64LogSplit>,
    ids: Ids<T>,
    root: int,
) -> Entry<T> {
    let current = if hidden {
        marked(entry, root)
    } else {
        entry
    };
    let range = (debit_count(split), logs.len() - credit_count(split));
    with_room(
        with_indexes(current, logs, start, range),
        (entry.traces + entry.error_traces)[root].id,
        room_for_debit(hidden, split),
        ids,
    )
}

/// The steps of a reconciliation that is not refused.
proof fn lemma_steps<T>(
    entry: Entry<T>,
    logs: Seq<LogModel>,
    hidden: bool,
    start: int,
    split: Option<Cip64LogSplit>,
    ids: Ids<T>,
    root: int,
) -> (steps: (Entry<T>, Entry<T>))
    requires
        is_first_without_path(entry.traces + entry.error_traces, root),
        receipt_agrees(entry, logs, split),
    ensures
        ({
            let pre = debit_count(split);
            let post = credit_count(split);
            let range = (pre, logs.len() - post);
            let all = entry.traces + entry.error_traces;
            let root_id = all[root].id;
            let room = room_for_debit(hidden, split);
            let (placed, moved) = steps;
            let (after, error) = reconciled(entry, logs, hidden, start, split, ids);
            let marked = with_root_change(all, root, hidden);
            let credit = credit_position(moved, root_id, pre);
            &&& error is None
            &&& main_range(logs.len(), split) == Some(range)
            &&& placed.traces.len() == entry.traces.len()
            &&& placed.error_traces.len() == entry.error_traces.len()
            &&& placed.all_traces() == marked
            &&& placed.events.len() == entry.events.len()
            &&& placed.error_events.len() == entry.error_events.len()
            &&& forall|k: int|
                0 <= k < entry.events.len() ==> (#[trigger] placed.events[k]) == (EventModel {
                    idx: index_of_log(logs[pre + k], start, pre + k),
                    ..entry.events[k]
                })
            &&& placed.error_events == with_indexes(entry, logs, start, range).error_events
            &&& moved == with_room(placed, root_id, room, ids)
            &&& moved == entry_with_room(entry, logs, hidden, start, split, ids, root)
            &&& after.traces == moved.traces
            &&& after.error_traces == moved.error_traces
            &&& after.error_events == moved.error_events
            &&& after.events == ordered(
                if hidden {
                    moved.events + hidden_events(logs, 0, pre, root_id, 0, start, ids)
                        + hidden_events(
                        logs,
                        logs.len() - post,
                        logs.len() as int,
                        root_id,
                        credit,
                        start,
                        ids,
                    )
                } else {
                    moved.events
                },
            )
        }),
{
    let pre = debit_count(split);
    let post = credit_count(split);
    let range = (pre, logs.len() - post);
    let all = entry.traces + entry.error_traces;
    assert(entry.all_traces() == all);
    lemma_root(all, root);
    lemma_marked(entry, root, hidden);
    lemma_disagreement(entry, logs, split);
    let current = if hidden {
        marked(entry, root)
    } else {
        entry
    };
    let placed = with_indexes(current, logs, start, range);
    let main = logs.subrange(range.0, range.1);
    assert forall|k: int| 0 <= k < entry.events.len() implies (#[trigger] placed.events[k]) == (
    EventModel { idx: index_of_log(logs[pre + k], start, pre + k), ..entry.events[k] }) by {
        assert(main[k] == logs[pre + k]);
    }
    assert(placed.all_traces() == current.all_traces());
    let moved = with_room(placed, all[root].id, room_for_debit(hidden, split), ids);
    (placed, moved)
}

/// What comes of the steps where room is made.
proof fn lemma_room<T>(
    placed: Entry<T>,
    moved: Entry<T>,
    root_id: Seq<char>,
    room: int,
    ids: Ids<T>,
)
    requires
        moved == with_room(placed, root_id, room, ids),
    ensures
        moved.traces.len() == placed.traces.len(),
        moved.error_traces.len() == placed.error_traces.len(),
        moved.events.len() == placed.events.len(),
        moved.error_events.len() == placed.error_events.len(),
        room == 0 ==> moved == placed,
        room != 0 ==> forall|i: int|
            0 <= i < placed.all_traces().len() ==> frame_follows(
                placed.all_traces()[i],
                #[trigger] moved.all_traces()[i],
                placed.all_traces(),
                moved.all_traces(),
                root_id,
                room,
                i,
                ids,
            ),
        forall|i: int|
            0 <= i < placed.events.len() ==> event_settles(
                placed.events[i],
                #[trigger] moved.events[i],
                placed.all_traces(),
                moved.all_traces(),
                root_id,
                room,
                ids,
            ),
        forall|i: int|
            0 <= i < placed.error_events.len() ==> event_settles(
                placed.error_events[i],
                #[trigger] moved.error_events[i],
                placed.all_traces(),
                moved.all_traces(),
                root_id,
                room,
                ids,
            ),
{
    if room != 0 {
        law_shift_follows_the_tree(placed, root_id, room, ids);
        assert(placed.all_traces() == placed.traces + placed.error_traces);
        assert(moved.all_traces() == moved.traces + moved.error_traces);
    }
}

/// What a reconciliation that is not refused makes of the frames: none is added, dropped or
/// reordered. With hidden logs the root has a storage change. Where the debit left logs, the root's
/// children make room for them and everything below follows; else nothing more changes.
pub proof fn law_reconciled_frames<T>(
    entry: Entry<T>,
    logs: Seq<LogModel>,
    hidden: bool,
    start: int,
    split: Option<Cip64LogSplit>,
    ids: Ids<T>,
    root: int,
)
    requires
        is_first_without_path(entry.traces + entry.error_traces, root),
        receipt_agrees(entry, logs, split),
    ensures
        ({
            let all = entry.traces + entry.error_traces;
            let before = with_root_change(all, root, hidden);
            let after = reconciled(entry, logs, hidden, start, split, ids).0;
            let frames = after.traces + after.error_traces;
            let room = room_for_debit(hidden, split);
            &&& after.traces.len() == entry.traces.len()
            &&& after.error_traces.len() == entry.error_traces.len()
            &&& room == 0 ==> frames == before
            &&& room != 0 ==> forall|i: int|
                0 <= i < all.len() ==> frame_follows(
                    before[i],
                    #[trigger] frames[i],
                    before,
                    frames,
                    all[root].id,
                    room,
                    i,
                    ids,
                )
        }),
{
    let all = entry.traces + entry.error_traces;
    let room = room_for_debit(hidden, split);
    let (placed, moved) = lemma_steps(entry, logs, hidden, start, split, ids, root);
    lemma_room(placed, moved, all[root].id, room, ids);
    let after = reconciled(entry, logs, hidden, start, split, ids).0;
    assert(after.traces + after.error_traces == moved.all_traces());
}

/// The index of the log for the inspector's event at `k`.
pub open spec fn main_index<T>(
    entry: Entry<T>,
    logs: Seq<LogModel>,
    start: int,
    split: Option<Cip64LogSplit>,
    k: int,
) -> int {
    index_of_log(logs[debit_count(split) + k], start, debit_count(split) + k)
}

/// `index` is where a reverted event belongs that stands at `idx` in the inspector's count: at the
/// log of the next successful event, else behind that of the last one, else at the first log behind
/// the debit's.
pub open spec fn is_reverted_place<T>(
    entry: Entry<T>,
    logs: Seq<LogModel>,
    start: int,
    split: Option<Cip64LogSplit>,
    idx: int,
    index: int,
) -> bool {
    let events = entry.events;
    if events.len() == 0 {
        index == start + debit_count(split)
    } else if exists|j: int| 0 <= j < events.len() && (#[trigger] events[j]).idx >= idx {
        exists|k: int|
            {
                &&& 0 <= k < events.len()
                &&& (#[trigger] events[k]).idx >= idx
                &&& forall|j: int|
                    0 <= j < events.len() && (#[trigger] events[j]).idx >= idx ==> events[k].idx
                        <= events[j].idx
                &&& index == main_index(entry, logs, start, split, k)
            }
    } else {
        exists|k: int|
            {
                &&& 0 <= k < events.len()
                &&& forall|j: int|
                    0 <= j < events.len() ==> (#[trigger] events[j]).idx <= events[k].idx
                &&& index == if #[trigger] main_index(entry, logs, start, split, k) < usize::MAX {
                    main_index(entry, logs, start, split, k) + 1
                } else {
                    main_index(entry, logs, start, split, k)
                }
            }
    }
}

/// Of the events at or after an index one comes first, of all events one comes last.
proof fn lemma_next_and_last(events: Seq<EventModel>, idx: int, count: int)
    requires
        0 <= count <= events.len(),
    ensures
        (exists|j: int| 0 <= j < count && (#[trigger] events[j]).idx >= idx) ==> exists|k: int|
            is_next_event(events.take(count), idx, k),
        count > 0 ==> exists|k: int| is_last_event(events.take(count), k),
    decreases count,
{
    if count > 0 {
        let last = count - 1;
        lemma_next_and_last(events, idx, last);
        let front = events.take(last);
        let list = events.take(count);
        assert(forall|j: int| 0 <= j < last ==> list[j] == #[trigger] front[j]);
        assert(list[last] == events[last]);
        if exists|j: int| 0 <= j < count && (#[trigger] events[j]).idx >= idx {
            if exists|j: int| 0 <= j < last && (#[trigger] events[j]).idx >= idx {
                let k = choose|k: int| is_next_event(front, idx, k);
                assert(is_next_event(front, idx, k));
                assert(list[k] == front[k]);
                if events[last].idx >= idx && events[last].idx < front[k].idx {
                    assert(is_next_event(list, idx, last)) by {
                        assert forall|j: int|
                            0 <= j < list.len() && (#[trigger] list[j]).idx >= idx implies list[last].idx
                            < list[j].idx || list[last].idx == list[j].idx && last <= j by {
                            if j < last {
                                assert(list[j] == front[j]);
                            }
                        }
                    }
                } else {
                    assert(is_next_event(list, idx, k)) by {
                        assert forall|j: int|
                            0 <= j < list.len() && (#[trigger] list[j]).idx >= idx implies list[k].idx
                            < list[j].idx || list[k].idx == list[j].idx && k <= j by {
                            if j < last {
                                assert(list[j] == front[j]);
                            }
                        }
                    }
                }
            } else {
                assert(is_next_event(list, idx, last)) by {
                    assert(events[last].idx >= idx);
                    assert forall|j: int|
                        0 <= j < list.len() && (#[trigger] list[j]).idx >= idx implies list[last].idx
                        < list[j].idx || list[last].idx == list[j].idx && last <= j by {
                        if j < last {
                            assert(events[j].idx < idx);
                        }
                    }
                }
            }
        }
        if last > 0 {
            let k = choose|k: int| is_last_event(front, k);
            assert(is_last_event(front, k));
            assert(list[k] == front[k]);
            if events[last].idx >= front[k].idx {
                assert(is_last_event(list, last)) by {
                    assert forall|j: int| 0 <= j < list.len() implies (#[trigger] list[j]).idx
                        < list[last].idx || list[j].idx == list[last].idx && j <= last by {
                        if j < last {
                            assert(list[j] == front[j]);
                        }
                    }
                }
            } else {
                assert(is_last_event(list, k)) by {
                    assert forall|j: int| 0 <= j < list.len() implies (#[trigger] list[j]).idx
                        < list[k].idx || list[j].idx == list[k].idx && j <= k by {
                        if j < last {
                            assert(list[j] == front[j]);
                        }
                    }
                }
            }
        } else {
            assert(is_last_event(list, last));
        }
    }
}

/// What a reconciliation that is not refused makes of the reverted events: each keeps its contract,
/// its selector, its topics and its data, and stands where it belongs among the logs. Without
/// hidden logs it differs from what it was in nothing but its index; with them it follows its
/// parent.
pub proof fn law_reconciled_reverted_events<T>(
    entry: Entry<T>,
    logs: Seq<LogModel>,
    hidden: bool,
    start: int,
    split: Option<Cip64LogSplit>,
    ids: Ids<T>,
    root: int,
)
    requires
        is_first_without_path(entry.traces + entry.error_traces, root),
        receipt_agrees(entry, logs, split),
    ensures
        ({
            let all = entry.traces + entry.error_traces;
            let before = with_root_change(all, root, hidden);
            let after = reconciled(entry, logs, hidden, start, split, ids).0;
            let frames = after.traces + after.error_traces;
            let room = room_for_debit(hidden, split);
            &&& after.error_events.len() == entry.error_events.len()
            &&& forall|i: int|
                0 <= i < entry.error_events.len() ==> {
                    let old_event = entry.error_events[i];
                    let new_event = #[trigger] after.error_events[i];
                    &&& is_reverted_place(entry, logs, start, split, old_event.idx, new_event.idx)
                    &&& new_event.contract_id == old_event.contract_id
                    &&& new_event.selector == old_event.selector
                    &&& new_event.topics == old_event.topics
                    &&& new_event.data == old_event.data
                    &&& event_settles(
                        EventModel { idx: new_event.idx, ..old_event },
                        new_event,
                        before,
                        frames,
                        all[root].id,
                        room,
                        ids,
                    )
                }
        }),
{
    let all = entry.traces + entry.error_traces;
    let room = room_for_debit(hidden, split);
    let pre = debit_count(split);
    let (placed, moved) = lemma_steps(entry, logs, hidden, start, split, ids, root);
    lemma_room(placed, moved, all[root].id, room, ids);
    let after = reconciled(entry, logs, hidden, start, split, ids).0;
    assert(after.traces + after.error_traces == moved.all_traces());
    let events = entry.events;
    let n = events.len() as int;
    let range = (pre, logs.len() - credit_count(split));
    let canonical = with_indexes(entry, logs, start, range).events;
    assert forall|k: int| 0 <= k < n implies (#[trigger] canonical[k]).idx == main_index(
        entry,
        logs,
        start,
        split,
        k,
    ) by {
        assert(logs.subrange(pre, pre + n)[k] == logs[pre + k]);
    }
    assert(events.take(n) =~= events);
    assert forall|i: int| 0 <= i < entry.error_events.len() implies {
        let old_event = entry.error_events[i];
        let new_event = #[trigger] after.error_events[i];
        &&& is_reverted_place(entry, logs, start, split, old_event.idx, new_event.idx)
        &&& new_event.contract_id == old_event.contract_id
        &&& new_event.selector == old_event.selector
        &&& new_event.topics == old_event.topics
        &&& new_event.data == old_event.data
        &&& event_settles(
            EventModel { idx: new_event.idx, ..old_event },
            new_event,
            placed.all_traces(),
            moved.all_traces(),
            all[root].id,
            room,
            ids,
        )
    } by {
        let old_event = entry.error_events[i];
        let middle = placed.error_events[i];
        let new_event = after.error_events[i];
        assert(new_event == moved.error_events[i]);
        assert(middle == EventModel { idx: middle.idx, ..old_event });
        assert(new_event.idx == middle.idx);
        let idx = old_event.idx;
        lemma_next_and_last(events, idx, n);
        if n > 0 {
            if exists|j: int| 0 <= j < events.len() && (#[trigger] events[j]).idx >= idx {
                let k = choose|k: int| is_next_event(events, idx, k);
                assert(is_next_event(events, idx, k));
                assert(middle.idx == canonical[k].idx);
                assert(events[k].idx >= idx);
            } else {
                assert forall|k: int| !is_next_event(events, idx, k) by {
                    if 0 <= k < n {
                        assert(events[k].idx < idx);
                    }
                }
                let k = choose|k: int| is_last_event(events, k);
                assert(is_last_event(events, k));
                assert(canonical[k].idx == main_index(entry, logs, start, split, k));
            }
        } else {
            assert forall|k: int| !is_next_event(events, idx, k) by {}
            assert forall|k: int| !is_last_event(events, k) by {}
        }
    }
}

/// Where an event for the log at `place` stands before the events are put in order: the
/// inspector's come first, then the debit's, then the credit's.
pub open spec fn rank_of_log(logs: nat, split: Option<Cip64LogSplit>, place: int) -> int {
    if place < debit_count(split) {
        logs - debit_count(split) - credit_count(split) + place
    } else if place < logs - credit_count(split) {
        place - debit_count(split)
    } else {
        place
    }
}

/// The event was made for a log that no inspector saw: a child of the root at this position, with
/// the identifier that is computed for it.
pub open spec fn is_made_for_root<T>(
    event: EventModel,
    root_id: Seq<char>,
    position: int,
    ids: Ids<T>,
) -> bool {
    &&& event.parent_trace_id == root_id
    &&& event.pos_in_parent_trace == position
    &&& event.id == (ids.event)(EventModel { id: Seq::empty(), ..event })
}

/// The event stands for the log at `place`. Between the debit's logs and the credit's it is the
/// inspector's event for that log; else it was made for the root, the debit's from the first
/// position on, the credit's from `credit` on.
pub open spec fn is_event_at<T>(
    event: EventModel,
    entry: Entry<T>,
    after: Entry<T>,
    logs: Seq<LogModel>,
    hidden: bool,
    start: int,
    split: Option<Cip64LogSplit>,
    ids: Ids<T>,
    root: int,
    credit: int,
    place: int,
) -> bool {
    let all = entry.traces + entry.error_traces;
    let pre = debit_count(split);
    let behind = logs.len() - credit_count(split);
    &&& stands_for(event, logs[place])
    &&& event.idx == index_of_log(logs[place], start, place)
    &&& if place < pre {
        is_made_for_root(event, all[root].id, place, ids)
    } else if place < behind {
        event_settles(
            EventModel { idx: event.idx, ..entry.events[place - pre] },
            event,
            with_root_change(all, root, hidden),
            after.traces + after.error_traces,
            all[root].id,
            room_for_debit(hidden, split),
            ids,
        )
    } else {
        is_made_for_root(event, all[root].id, credit + place - behind, ids)
    }
}

/// What a reconciliation that is not refused makes of the events. With hidden logs there is one for
/// each log of the receipt, without them one for each log between the debit's and the credit's:
/// `places[i]` is the place in the receipt of the log for which the event at `i` stands. They are
/// ordered by index; where indexes are equal, the inspector's events come first, then the debit's,
/// then the credit's.
///
/// `credit` is the first position at or behind the debit's that lies behind all other children of
/// the root.
pub proof fn law_reconciled_events<T>(
    entry: Entry<T>,
    logs: Seq<LogModel>,
    hidden: bool,
    start: int,
    split: Option<Cip64LogSplit>,
    ids: Ids<T>,
    root: int,
) -> (result: (Seq<int>, int))
    requires
        is_first_without_path(entry.traces + entry.error_traces, root),
        receipt_agrees(entry, logs, split),
    ensures
        ({
            let (places, credit) = result;
            let pre = debit_count(split);
            let behind = logs.len() - credit_count(split);
            let after = reconciled(entry, logs, hidden, start, split, ids).0;
            let events = after.events;
            let first = if hidden {
                0
            } else {
                pre
            };
            let last = if hidden {
                logs.len() as int
            } else {
                behind
            };
            &&& events.len() == last - first
            &&& places.len() == events.len()
            &&& places.no_duplicates()
            &&& forall|k: int| first <= k < last ==> #[trigger] places.contains(k)
            &&& forall|i: int|
                0 <= i < events.len() ==> first <= #[trigger] places[i] < last && is_event_at(
                    events[i],
                    entry,
                    after,
                    logs,
                    hidden,
                    start,
                    split,
                    ids,
                    root,
                    credit,
                    places[i],
                )
            &&& forall|i: int, j: int|
                0 <= i < j < events.len() ==> (#[trigger] events[i]).idx < (
                #[trigger] events[j]).idx || events[i].idx == events[j].idx && rank_of_log(
                    logs.len(),
                    split,
                    places[i],
                ) < rank_of_log(logs.len(), split, places[j])
        }),
        hidden ==> is_credit_position(
            entry,
            reconciled(entry, logs, hidden, start, split, ids).0,
            logs.len(),
            split,
            root,
            result.0,
            result.1,
        ),
{
    lemma_events(entry, logs, hidden, start, split, ids, root)
}

/// Numbers below their count that grow from one to the next are all numbers from 0 on.
proof fn lemma_growing(places: Seq<int>, i: int)
    requires
        0 <= i < places.len(),
        forall|k: int| 0 <= k < places.len() ==> 0 <= #[trigger] places[k] < places.len(),
        forall|k: int, m: int|
            0 <= k < m < places.len() ==> #[trigger] places[k] < #[trigger] places[m],
    ensures
        places[i] == i,
{
    lemma_growing_from_below(places, i);
    lemma_growing_from_above(places, i);
}

/// The number at `i` is at least `i`.
proof fn lemma_growing_from_below(places: Seq<int>, i: int)
    requires
        0 <= i < places.len(),
        forall|k: int| 0 <= k < places.len() ==> 0 <= #[trigger] places[k] < places.len(),
        forall|k: int, m: int|
            0 <= k < m < places.len() ==> #[trigger] places[k] < #[trigger] places[m],
    ensures
        places[i] >= i,
    decreases i,
{
    if i > 0 {
        lemma_growing_from_below(places, i - 1);
        assert(places[i - 1] < places[i]);
    }
}

/// The number at `i` is at most `i`.
proof fn lemma_growing_from_above(places: Seq<int>, i: int)
    requires
        0 <= i < places.len(),
        forall|k: int| 0 <= k < places.len() ==> 0 <= #[trigger] places[k] < places.len(),
        forall|k: int, m: int|
            0 <= k < m < places.len() ==> #[trigger] places[k] < #[trigger] places[m],
    ensures
        places[i] <= i,
    decreases places.len() - i,
{
    if i < places.len() - 1 {
        lemma_growing_from_above(places, i + 1);
        assert(places[i] < places[i + 1]);
    }
}

/// The split tells the logs apart. Where the indexes of the receipt's logs grow, a reconciled entry
/// with hidden logs has one event for each log, in the receipt's order. The first `split.pre` are
/// made for the debit, as the root's first children; the one at `split.pre + k` is the inspector's
/// event `k`; the last `split.post` are made for the credit, as children of the root one behind the
/// other from `credit` on.
pub proof fn law_split_tells_logs_apart<T>(
    entry: Entry<T>,
    logs: Seq<LogModel>,
    start: int,
    split: Cip64LogSplit,
    ids: Ids<T>,
    root: int,
) -> (credit: int)
    requires
        is_first_without_path(entry.traces + entry.error_traces, root),
        split.pre + entry.events.len() + split.post == logs.len(),
        forall|k: int|
            0 <= k < entry.events.len() ==> stands_for(
                #[trigger] entry.events[k],
                logs[split.pre + k],
            ),
        forall|i: int, j: int|
            0 <= i < j < logs.len() ==> index_of_log(#[trigger] logs[i], start, i) < index_of_log(
                #[trigger] logs[j],
                start,
                j,
            ),
    ensures
        ({
            let root_id = (entry.traces + entry.error_traces)[root].id;
            let (after, error) = reconciled(entry, logs, true, start, Some(split), ids);
            let events = after.events;
            &&& error is None
            &&& events.len() == logs.len()
            &&& credit >= split.pre
            &&& forall|i: int|
                0 <= i < logs.len() ==> stands_for(#[trigger] events[i], logs[i]) && events[i].idx
                    == index_of_log(logs[i], start, i)
            &&& forall|i: int|
                0 <= i < split.pre ==> is_made_for_root(#[trigger] events[i], root_id, i, ids)
            &&& forall|k: int|
                0 <= k < entry.events.len() ==> {
                    let event = events[split.pre + k];
                    &&& event.contract_id == (#[trigger] entry.events[k]).contract_id
                    &&& event.selector == entry.events[k].selector
                    &&& event.topics == entry.events[k].topics
                    &&& event.data == entry.events[k].data
                }
            &&& forall|i: int|
                logs.len() - split.post <= i < logs.len() ==> is_made_for_root(
                    #[trigger] events[i],
                    root_id,
                    credit + i - (logs.len() - split.post),
                    ids,
                )
        }),
{
    let told = Some(split);
    let (after, error) = reconciled(entry, logs, true, start, told, ids);
    let events = after.events;
    assert forall|k: int| 0 <= k < entry.events.len() implies #[trigger] main_event_agrees(
        entry,
        logs,
        told,
        k,
    ) by {
        assert(stands_for(entry.events[k], logs[split.pre + k]));
    }
    assert(receipt_agrees(entry, logs, told));
    law_refused_only_for_a_cause(entry, logs, true, start, told, ids, root);
    let (places, credit) = law_reconciled_events(entry, logs, true, start, told, ids, root);
    assert forall|i: int, j: int| 0 <= i < j < places.len() implies #[trigger] places[i]
        < #[trigger] places[j] by {
        assert(events[i].idx <= events[j].idx);
        assert(events[i].idx == index_of_log(logs[places[i]], start, places[i]));
        assert(events[j].idx == index_of_log(logs[places[j]], start, places[j]));
        assert(places[i] != places[j]);
        if places[j] < places[i] {
            let left = logs[places[j]];
            let right = logs[places[i]];
        }
    }
    assert forall|i: int| 0 <= i < places.len() implies #[trigger] places[i] == i by {
        lemma_growing(places, i);
    }
    assert forall|i: int| 0 <= i < logs.len() implies is_event_at(
        #[trigger] events[i],
        entry,
        after,
        logs,
        true,
        start,
        told,
        ids,
        root,
        credit,
        i,
    ) by {
        assert(places[i] == i);
    }
    assert forall|k: int| 0 <= k < entry.events.len() implies {
        let event = events[split.pre + k];
        &&& event.contract_id == (#[trigger] entry.events[k]).contract_id
        &&& event.selector == entry.events[k].selector
        &&& event.topics == entry.events[k].topics
        &&& event.data == entry.events[k].data
    } by {
        let i = split.pre + k;
        assert(is_event_at(
            events[i],
            entry,
            after,
            logs,
            true,
            start,
            told,
            ids,
            root,
            credit,
            i,
        ));
    }
    credit
}

/// What the events become, and where the credit's stand.
proof fn lemma_events<T>(
    entry: Entry<T>,
    logs: Seq<LogModel>,
    hidden: bool,
    start: int,
    split: Option<Cip64LogSplit>,
    ids: Ids<T>,
    root: int,
) -> (result: (Seq<int>, int))
    requires
        is_first_without_path(entry.traces + entry.error_traces, root),
        receipt_agrees(entry, logs, split),
    ensures
        ({
            let (places, credit) = result;
            let pre = debit_count(split);
            let behind = logs.len() - credit_count(split);
            let after = reconciled(entry, logs, hidden, start, split, ids).0;
            let events = after.events;
            let first = if hidden {
                0
            } else {
                pre
            };
            let last = if hidden {
                logs.len() as int
            } else {
                behind
            };
            &&& events.len() == last - first
            &&& places.len() == events.len()
            &&& places.no_duplicates()
            &&& forall|k: int| first <= k < last ==> #[trigger] places.contains(k)
            &&& forall|i: int|
                0 <= i < events.len() ==> first <= #[trigger] places[i] < last && is_event_at(
                    events[i],
                    entry,
                    after,
                    logs,
                    hidden,
                    start,
                    split,
                    ids,
                    root,
                    credit,
                    places[i],
                )
            &&& forall|i: int, j: int|
                0 <= i < j < events.len() ==> (#[trigger] events[i]).idx < (
                #[trigger] events[j]).idx || events[i].idx == events[j].idx && rank_of_log(
                    logs.len(),
                    split,
                    places[i],
                ) < rank_of_log(logs.len(), split, places[j])
        }),
        hidden ==> is_credit_position(
            entry,
            reconciled(entry, logs, hidden, start, split, ids).0,
            logs.len(),
            split,
            root,
            result.0,
            result.1,
        ),
        hidden ==> result.1 == credit_position(
            entry_with_room(entry, logs, hidden, start, split, ids, root),
            (entry.traces + entry.error_traces)[root].id,
            debit_count(split),
        ),
{
    let all = entry.traces + entry.error_traces;
    let root_id = all[root].id;
    let room = room_for_debit(hidden, split);
    let pre = debit_count(split);
    let post = credit_count(split);
    let behind = logs.len() - post;
    let (placed, moved) = lemma_steps(entry, logs, hidden, start, split, ids, root);
    lemma_room(placed, moved, root_id, room, ids);
    let after = reconciled(entry, logs, hidden, start, split, ids).0;
    assert(after.traces + after.error_traces == moved.all_traces());
    let none = Seq::<EventModel>::empty();
    let credit = credit_position(moved, root_id, pre);
    let debits = if hidden {
        hidden_events(logs, 0, pre, root_id, 0, start, ids)
    } else {
        none
    };
    let credits = if hidden {
        hidden_events(logs, behind, logs.len() as int, root_id, credit, start, ids)
    } else {
        none
    };
    let before = moved.events + debits + credits;
    assert(!hidden ==> before =~= moved.events);
    let events = after.events;
    assert(events == ordered(before));
    law_order_exists(before);
    let from = law_order_rearranges(before);
    let m = entry.events.len() as int;
    let a = debits.len() as int;
    let first = if hidden {
        0
    } else {
        pre
    };
    let last = if hidden {
        logs.len() as int
    } else {
        behind
    };
    let origin = |k: int|
        if k < m {
            pre + k
        } else if k < m + a {
            k - m
        } else {
            k
        };
    let places = Seq::new(events.len(), |i: int| origin(from[i]));
    assert forall|i: int| 0 <= i < events.len() implies first <= #[trigger] places[i] < last
        && is_event_at(
        events[i],
        entry,
        after,
        logs,
        hidden,
        start,
        split,
        ids,
        root,
        credit,
        places[i],
    ) by {
        let k = from[i];
        let place = places[i];
        assert(events[i] == before[k]);
        if k < m {
            assert(before[k] == moved.events[k]);
            assert(main_event_agrees(entry, logs, split, k));
            assert(stands_for(entry.events[k], logs[place]));
            assert(placed.events[k] == EventModel {
                idx: index_of_log(logs[place], start, place),
                ..entry.events[k]
            });
            assert(events[i].idx == placed.events[k].idx);
        } else if k < m + a {
            assert(before[k] == debits[k - m]);
            law_event_made_for_log(logs[place], root_id, place, start + place);
            assert(stands_for(events[i], logs[place]));
            assert(EventModel { id: Seq::<char>::empty(), ..events[i] } =~= log_event(
                logs[place],
                root_id,
                place,
                start + place,
            ));
        } else {
            assert(before[k] == credits[k - m - a]);
            let position = credit + place - behind;
            law_event_made_for_log(logs[place], root_id, position, start + place);
            assert(stands_for(events[i], logs[place]));
            assert(EventModel { id: Seq::<char>::empty(), ..events[i] } =~= log_event(
                logs[place],
                root_id,
                position,
                start + place,
            ));
        }
    }
    assert forall|i: int, j: int|
        0 <= i < places.len() && 0 <= j < places.len() && i != j implies places[i] != places[j] by {
        assert(from[i] != from[j]);
        assert(0 <= from[i] < before.len());
        assert(0 <= from[j] < before.len());
    }
    assert forall|k: int| first <= k < last implies #[trigger] places.contains(k) by {
        let rank = rank_of_log(logs.len(), split, k);
        assert(from.contains(rank));
        let i = from.index_of(rank);
        assert(places[i] == k);
    }
    assert forall|i: int, j: int| 0 <= i < j < events.len() implies (#[trigger] events[i]).idx < (
    #[trigger] events[j]).idx || events[i].idx == events[j].idx && rank_of_log(
        logs.len(),
        split,
        places[i],
    ) < rank_of_log(logs.len(), split, places[j]) by {
        assert(events[i].idx <= events[j].idx);
        assert(0 <= from[i] < before.len());
        assert(0 <= from[j] < before.len());
        assert(rank_of_log(logs.len(), split, places[i]) == from[i]);
        assert(rank_of_log(logs.len(), split, places[j]) == from[j]);
    }
    if hidden {
        lemma_credit_position(entry, moved, after, logs.len(), split, root, from, places);
    }
    (places, credit)
}

/// A record is a child of the root at this position: a frame, a reverted event, or an event for a
/// log between the debit's and the credit's.
pub open spec fn has_child_at<T>(
    after: Entry<T>,
    logs: nat,
    split: Option<Cip64LogSplit>,
    root_id: Seq<char>,
    places: Seq<int>,
    position: int,
) -> bool {
    let frames = after.traces + after.error_traces;
    ||| exists|i: int|
        0 <= i < frames.len() && (#[trigger] frames[i]).parent_trace_id == root_id
            && frames[i].pos_in_parent_trace == position
    ||| exists|i: int|
        0 <= i < after.error_events.len() && (#[trigger] after.error_events[i]).parent_trace_id
            == root_id && after.error_events[i].pos_in_parent_trace == position
    ||| exists|i: int|
        0 <= i < after.events.len() && (#[trigger] after.events[i]).parent_trace_id == root_id
            && debit_count(split) <= places[i] < logs - credit_count(split)
            && after.events[i].pos_in_parent_trace == position
}

/// `credit` is the first position at or behind the debit's that lies behind all other children of
/// the root.
pub open spec fn is_credit_position<T>(
    entry: Entry<T>,
    after: Entry<T>,
    logs: nat,
    split: Option<Cip64LogSplit>,
    root: int,
    places: Seq<int>,
    credit: int,
) -> bool {
    let root_id = (entry.traces + entry.error_traces)[root].id;
    &&& credit >= debit_count(split)
    &&& forall|position: int| #[trigger]
        has_child_at(after, logs, split, root_id, places, position) ==> position < credit
    &&& credit == debit_count(split) || has_child_at(
        after,
        logs,
        split,
        root_id,
        places,
        credit - 1,
    )
}

/// The children of the root among the records are those among the links.
proof fn lemma_credit_position<T>(
    entry: Entry<T>,
    moved: Entry<T>,
    after: Entry<T>,
    logs: nat,
    split: Option<Cip64LogSplit>,
    root: int,
    from: Seq<int>,
    places: Seq<int>,
)
    requires
        after.traces == moved.traces,
        after.error_traces == moved.error_traces,
        after.error_events == moved.error_events,
        moved.events.len() == logs - debit_count(split) - credit_count(split),
        debit_count(split) >= 0,
        places.len() == after.events.len(),
        from.len() == after.events.len(),
        forall|k: int| 0 <= k < after.events.len() ==> #[trigger] from.contains(k),
        forall|i: int|
            0 <= i < after.events.len() ==> {
                let place = #[trigger] places[i];
                &&& 0 <= from[i] < after.events.len()
                &&& debit_count(split) <= place < logs - credit_count(split) <==> from[i]
                    < moved.events.len()
                &&& from[i] < moved.events.len() ==> after.events[i] == moved.events[from[i]]
            },
        moved.events.len() <= after.events.len(),
    ensures
        is_credit_position(
            entry,
            after,
            logs,
            split,
            root,
            places,
            credit_position(
                moved,
                (entry.traces + entry.error_traces)[root].id,
                debit_count(split),
            ),
        ),
{
    let root_id = (entry.traces + entry.error_traces)[root].id;
    let all = links(moved);
    let frames = after.traces + after.error_traces;
    let next = next_position(moved, root_id);
    lemma_next_position_exists(all, root_id);
    assert(is_next_position(all, root_id, next));
    let n = frames.len() as int;
    let e = n + moved.events.len();
    assert forall|position: int| #[trigger]
        has_child_at(after, logs, split, root_id, places, position) implies position < next by {
        if exists|i: int|
            0 <= i < frames.len() && (#[trigger] frames[i]).parent_trace_id == root_id
                && frames[i].pos_in_parent_trace == position {
            let i = choose|i: int|
                0 <= i < frames.len() && (#[trigger] frames[i]).parent_trace_id == root_id
                    && frames[i].pos_in_parent_trace == position;
            assert(all[i] == (root_id, position));
        } else if exists|i: int|
            0 <= i < after.error_events.len() && (#[trigger] after.error_events[i]).parent_trace_id
                == root_id && after.error_events[i].pos_in_parent_trace == position {
            let i = choose|i: int|
                0 <= i < after.error_events.len() && (
                #[trigger] after.error_events[i]).parent_trace_id == root_id
                    && after.error_events[i].pos_in_parent_trace == position;
            assert(all[e + i] == (root_id, position));
        } else {
            let i = choose|i: int|
                0 <= i < after.events.len() && (#[trigger] after.events[i]).parent_trace_id
                    == root_id && debit_count(split) <= places[i] < logs - credit_count(split)
                    && after.events[i].pos_in_parent_trace == position;
            let place = places[i];
            assert(all[n + from[i]] == (root_id, position));
        }
    }
    if next > debit_count(split) {
        let i = choose|i: int|
            0 <= i < all.len() && (#[trigger] all[i]).0 == root_id && all[i].1 == next - 1;
        if i < n {
            assert(frames[i].parent_trace_id == root_id);
        } else if i < e {
            let k = i - n;
            assert(from.contains(k));
            let j = from.index_of(k);
            let place = places[j];
            assert(after.events[j] == moved.events[k]);
            assert(after.events[j].parent_trace_id == root_id);
        } else {
            assert(after.error_events[i - e].parent_trace_id == root_id);
        }
        assert(has_child_at(after, logs, split, root_id, places, next - 1));
    }
}

/// A position is left behind every child of the root.
pub open spec fn positions_are_left<T>(entry: Entry<T>, root_id: Seq<char>) -> bool {
    let frames = entry.traces + entry.error_traces;
    &&& forall|i: int|
        0 <= i < frames.len() && (#[trigger] frames[i]).parent_trace_id == root_id
            ==> frames[i].pos_in_parent_trace < usize::MAX
    &&& forall|i: int|
        0 <= i < entry.events.len() && (#[trigger] entry.events[i]).parent_trace_id == root_id
            ==> entry.events[i].pos_in_parent_trace < usize::MAX
    &&& forall|i: int|
        0 <= i < entry.error_events.len() && (#[trigger] entry.error_events[i]).parent_trace_id
            == root_id ==> entry.error_events[i].pos_in_parent_trace < usize::MAX
}

/// The positions of the root's children leave room for the debit's logs.
pub open spec fn room_is_left<T>(entry: Entry<T>, root_id: Seq<char>, room: int) -> bool {
    let frames = entry.traces + entry.error_traces;
    &&& forall|i: int|
        0 <= i < frames.len() && (#[trigger] frames[i]).parent_trace_id == root_id
            ==> frames[i].pos_in_parent_trace + room <= usize::MAX
    &&& forall|i: int|
        0 <= i < entry.events.len() && (#[trigger] entry.events[i]).parent_trace_id == root_id
            ==> entry.events[i].pos_in_parent_trace + room <= usize::MAX
    &&& forall|i: int|
        0 <= i < entry.error_events.len() && (#[trigger] entry.error_events[i]).parent_trace_id
            == root_id ==> entry.error_events[i].pos_in_parent_trace + room <= usize::MAX
}

/// The event at `k` can be compared with its log: the log has a topic, or they differ before the
/// topics matter. Where they agree, the log's place behind `start` fits.
pub open spec fn can_be_compared<T>(
    entry: Entry<T>,
    logs: Seq<LogModel>,
    start: int,
    split: Option<Cip64LogSplit>,
    k: int,
) -> bool {
    let place = debit_count(split) + k;
    &&& logs[place].topics.len() > 0 || entry.events[k].contract_id != logs[place].address
        || entry.events[k].selector.len() > 0
    &&& main_event_agrees(entry, logs, split, k) ==> start + place <= usize::MAX
}

/// Nothing stands in the way of a reconciliation, as far as it gets. Events are compared with their
/// logs up to the first that differs. Where none does, reverted events need the place of the first
/// log behind the debit's; hidden logs need a topic, a place that fits, room at the head of the
/// root, and positions behind its children.
pub open spec fn nothing_in_the_way<T>(
    entry: Entry<T>,
    logs: Seq<LogModel>,
    hidden: bool,
    start: int,
    split: Option<Cip64LogSplit>,
    ids: Ids<T>,
    root: int,
) -> bool {
    let pre = debit_count(split);
    let post = credit_count(split);
    let root_id = (entry.traces + entry.error_traces)[root].id;
    pre + entry.events.len() + post == logs.len() ==> {
        &&& forall|k: int|
            0 <= k < entry.events.len() && (forall|j: int|
                0 <= j < k ==> #[trigger] main_event_agrees(entry, logs, split, j))
                ==> #[trigger] can_be_compared(entry, logs, start, split, k)
        &&& receipt_agrees(entry, logs, split) ==> {
            &&& entry.error_events.len() > 0 ==> start + pre <= usize::MAX
            &&& hidden ==> {
                &&& forall|i: int|
                    0 <= i < logs.len() && !(pre <= i < logs.len() - post) ==> (
                    #[trigger] logs[i]).topics.len() > 0 && start + i <= usize::MAX
                &&& pre > 0 ==> room_is_left(entry, root_id, pre)
                &&& positions_are_left(
                    reconciled(entry, logs, hidden, start, split, ids).0,
                    root_id,
                )
            }
        }
    }
}

/// A reconciliation is defined exactly where nothing stands in its way; and always where there is
/// no root.
pub proof fn law_reconcilable_exactly<T>(
    entry: Entry<T>,
    logs: Seq<LogModel>,
    hidden: bool,
    start: int,
    split: Option<Cip64LogSplit>,
    ids: Ids<T>,
)
    requires
        logs.len() <= usize::MAX,
    ensures
        reconcilable(entry, logs, hidden, start, split, ids) <==> forall|root: int| #[trigger]
            is_first_without_path(entry.traces + entry.error_traces, root) ==> nothing_in_the_way(
                entry,
                logs,
                hidden,
                start,
                split,
                ids,
                root,
            ),
{
    let all = entry.traces + entry.error_traces;
    assert(entry.all_traces() == all);
    assert forall|root: int| #[trigger] is_first_without_path(all, root) implies reconcilable(
        entry,
        logs,
        hidden,
        start,
        split,
        ids,
    ) == nothing_in_the_way(entry, logs, hidden, start, split, ids, root) by {
        lemma_nothing_in_the_way(entry, logs, hidden, start, split, ids, root);
    }
    if root_index(all) is Some {
        let root = root_index(all)->0;
        assert(is_root_at(all, root));
        assert(is_first_without_path(all, root));
    } else {
        assert forall|root: int| !is_first_without_path(all, root) by {
            if is_first_without_path(all, root) {
                lemma_root(all, root);
            }
        }
    }
}

/// The comparison is defined exactly where the events that are compared can be.
proof fn lemma_comparison<T>(
    entry: Entry<T>,
    logs: Seq<LogModel>,
    start: int,
    split: Option<Cip64LogSplit>,
)
    requires
        debit_count(split) + entry.events.len() + credit_count(split) == logs.len(),
    ensures
        ({
            let pre = debit_count(split);
            let main = logs.subrange(pre, pre + entry.events.len());
            comparison_defined(entry.events, main, start + pre) <==> forall|k: int|
                0 <= k < entry.events.len() && (forall|j: int|
                    0 <= j < k ==> #[trigger] main_event_agrees(entry, logs, split, j))
                    ==> #[trigger] can_be_compared(entry, logs, start, split, k)
        }),
{
    let pre = debit_count(split);
    let events = entry.events;
    let main = logs.subrange(pre, pre + events.len());
    lemma_disagreement(entry, logs, split);
    assert forall|k: int| 0 <= k < events.len() implies (matches_before(events, main, k)
        <==> forall|j: int| 0 <= j < k ==> #[trigger] main_event_agrees(entry, logs, split, j)) by {
        if matches_before(events, main, k) {
            assert forall|j: int| 0 <= j < k implies #[trigger] main_event_agrees(
                entry,
                logs,
                split,
                j,
            ) by {
                assert(matches_log(events[j], main[j]));
            }
        }
        if forall|j: int| 0 <= j < k ==> #[trigger] main_event_agrees(entry, logs, split, j) {
            assert forall|i: int| 0 <= i < k implies matches_log(#[trigger] events[i], main[i]) by {
                assert(main_event_agrees(entry, logs, split, i));
            }
        }
    }
    assert forall|k: int| 0 <= k < events.len() implies (#[trigger] can_be_compared(
        entry,
        logs,
        start,
        split,
        k,
    ) <==> comparable(events[k], main[k]) && (matches_log(events[k], main[k]) ==> start + pre + k
        <= usize::MAX)) by {
        assert(main[k] == logs[pre + k]);
    }
    if comparison_defined(events, main, start + pre) {
        assert forall|k: int|
            0 <= k < events.len() && (forall|j: int|
                0 <= j < k ==> #[trigger] main_event_agrees(
                    entry,
                    logs,
                    split,
                    j,
                )) implies #[trigger] can_be_compared(entry, logs, start, split, k) by {
            assert(comparable(events[k], main[k]));
        }
    } else {
        let k = choose|k: int|
            0 <= k < events.len() && matches_before(events, main, k) && !(comparable(
                #[trigger] events[k],
                main[k],
            ) && (matches_log(events[k], main[k]) ==> start + pre + k <= usize::MAX));
        assert(!can_be_compared(entry, logs, start, split, k));
    }
}

/// The hidden events fit exactly where the logs and the positions allow it.
proof fn lemma_hidden_events_fit<T>(
    entry: Entry<T>,
    logs: Seq<LogModel>,
    start: int,
    split: Option<Cip64LogSplit>,
    ids: Ids<T>,
    root: int,
)
    requires
        logs.len() <= usize::MAX,
        is_first_without_path(entry.traces + entry.error_traces, root),
        receipt_agrees(entry, logs, split),
    ensures
        ({
            let pre = debit_count(split);
            let post = credit_count(split);
            let range = (pre, logs.len() - post);
            let root_id = (entry.traces + entry.error_traces)[root].id;
            let placed = with_indexes(marked(entry, root), logs, start, range);
            hidden_events_fit(placed, root_id, logs, start, range, ids) <==> {
                &&& forall|i: int|
                    0 <= i < logs.len() && !(pre <= i < logs.len() - post) ==> (
                    #[trigger] logs[i]).topics.len() > 0 && start + i <= usize::MAX
                &&& pre > 0 ==> room_is_left(entry, root_id, pre)
                &&& positions_are_left(reconciled(entry, logs, true, start, split, ids).0, root_id)
            }
        }),
{
    let pre = debit_count(split);
    let post = credit_count(split);
    let behind = logs.len() - post;
    let range = (pre, behind);
    let all = entry.traces + entry.error_traces;
    let root_id = all[root].id;
    let placed = with_indexes(marked(entry, root), logs, start, range);
    let moved = entry_with_room(entry, logs, true, start, split, ids, root);
    let after = reconciled(entry, logs, true, start, split, ids).0;
    let frames = after.traces + after.error_traces;
    let (places, credit) = lemma_events(entry, logs, true, start, split, ids, root);
    assert(moved == with_room(placed, root_id, pre, ids));
    assert(credit + post <= usize::MAX <==> positions_are_left(after, root_id)) by {
        if credit + post <= usize::MAX {
            assert forall|i: int|
                0 <= i < frames.len() && (#[trigger] frames[i]).parent_trace_id
                    == root_id implies frames[i].pos_in_parent_trace < usize::MAX by {
                assert(has_child_at(
                    after,
                    logs.len(),
                    split,
                    root_id,
                    places,
                    frames[i].pos_in_parent_trace,
                ));
            }
            assert forall|i: int|
                0 <= i < after.error_events.len() && (
                #[trigger] after.error_events[i]).parent_trace_id
                    == root_id implies after.error_events[i].pos_in_parent_trace < usize::MAX by {
                assert(has_child_at(
                    after,
                    logs.len(),
                    split,
                    root_id,
                    places,
                    after.error_events[i].pos_in_parent_trace,
                ));
            }
            assert forall|i: int|
                0 <= i < after.events.len() && (#[trigger] after.events[i]).parent_trace_id
                    == root_id implies after.events[i].pos_in_parent_trace < usize::MAX by {
                let place = places[i];
                if pre <= place < behind {
                    assert(has_child_at(
                        after,
                        logs.len(),
                        split,
                        root_id,
                        places,
                        after.events[i].pos_in_parent_trace,
                    ));
                }
            }
        }
        if positions_are_left(after, root_id) {
            if post > 0 {
                let place = logs.len() - 1;
                assert(places.contains(place));
                let i = places.index_of(place);
                assert(places[i] == place);
                assert(after.events[i].pos_in_parent_trace == credit + post - 1);
            } else if credit != pre {
                assert(has_child_at(after, logs.len(), split, root_id, places, credit - 1));
            }
        }
    }
    assert(shift_fits(placed, root_id, pre) <==> room_is_left(entry, root_id, pre)) by {
        lemma_marked(entry, root, true);
        let t = entry.traces.len() as int;
        assert(forall|i: int|
            0 <= i < t ==> (#[trigger] placed.traces[i]).parent_trace_id
                == entry.traces[i].parent_trace_id && placed.traces[i].pos_in_parent_trace
                == entry.traces[i].pos_in_parent_trace);
        assert(forall|i: int|
            0 <= i < entry.error_traces.len() ==> (
            #[trigger] placed.error_traces[i]).parent_trace_id
                == entry.error_traces[i].parent_trace_id
                && placed.error_traces[i].pos_in_parent_trace
                == entry.error_traces[i].pos_in_parent_trace);
        assert(forall|i: int|
            0 <= i < entry.events.len() ==> (#[trigger] placed.events[i]).parent_trace_id
                == entry.events[i].parent_trace_id && placed.events[i].pos_in_parent_trace
                == entry.events[i].pos_in_parent_trace);
        assert(forall|i: int|
            0 <= i < entry.error_events.len() ==> (
            #[trigger] placed.error_events[i]).parent_trace_id
                == entry.error_events[i].parent_trace_id
                && placed.error_events[i].pos_in_parent_trace
                == entry.error_events[i].pos_in_parent_trace);
        if shift_fits(placed, root_id, pre) {
            assert forall|i: int|
                0 <= i < all.len() && (#[trigger] all[i]).parent_trace_id
                    == root_id implies all[i].pos_in_parent_trace + pre <= usize::MAX by {
                if i < t {
                    assert(all[i] == entry.traces[i]);
                    let same = placed.traces[i];
                } else {
                    assert(all[i] == entry.error_traces[i - t]);
                    let same = placed.error_traces[i - t];
                }
            }
            assert forall|i: int|
                0 <= i < entry.events.len() && (#[trigger] entry.events[i]).parent_trace_id
                    == root_id implies entry.events[i].pos_in_parent_trace + pre <= usize::MAX by {
                let same = placed.events[i];
            }
            assert forall|i: int|
                0 <= i < entry.error_events.len() && (
                #[trigger] entry.error_events[i]).parent_trace_id
                    == root_id implies entry.error_events[i].pos_in_parent_trace + pre
                <= usize::MAX by {
                let same = placed.error_events[i];
            }
        }
        if room_is_left(entry, root_id, pre) {
            assert forall|i: int|
                0 <= i < placed.traces.len() && (#[trigger] placed.traces[i]).parent_trace_id
                    == root_id implies placed.traces[i].pos_in_parent_trace + pre <= usize::MAX by {
                assert(all[i] == entry.traces[i]);
            }
            assert forall|i: int|
                0 <= i < placed.error_traces.len() && (
                #[trigger] placed.error_traces[i]).parent_trace_id
                    == root_id implies placed.error_traces[i].pos_in_parent_trace + pre
                <= usize::MAX by {
                assert(all[t + i] == entry.error_traces[i]);
            }
            assert forall|i: int|
                0 <= i < placed.events.len() && (#[trigger] placed.events[i]).parent_trace_id
                    == root_id implies placed.events[i].pos_in_parent_trace + pre <= usize::MAX by {
                let same = entry.events[i];
            }
            assert forall|i: int|
                0 <= i < placed.error_events.len() && (
                #[trigger] placed.error_events[i]).parent_trace_id
                    == root_id implies placed.error_events[i].pos_in_parent_trace + pre
                <= usize::MAX by {
                let same = entry.error_events[i];
            }
        }
    }
}

/// With a root, a reconciliation is defined exactly where nothing stands in its way.
proof fn lemma_nothing_in_the_way<T>(
    entry: Entry<T>,
    logs: Seq<LogModel>,
    hidden: bool,
    start: int,
    split: Option<Cip64LogSplit>,
    ids: Ids<T>,
    root: int,
)
    requires
        logs.len() <= usize::MAX,
        is_first_without_path(entry.traces + entry.error_traces, root),
    ensures
        reconcilable(entry, logs, hidden, start, split, ids) <==> nothing_in_the_way(
            entry,
            logs,
            hidden,
            start,
            split,
            ids,
            root,
        ),
{
    let all = entry.traces + entry.error_traces;
    assert(entry.all_traces() == all);
    lemma_root(all, root);
    if debit_count(split) + entry.events.len() + credit_count(split) == logs.len() {
        lemma_disagreement(entry, logs, split);
        lemma_comparison(entry, logs, start, split);
        if receipt_agrees(entry, logs, split) && hidden {
            lemma_hidden_events_fit(entry, logs, start, split, ids, root);
        }
    }
}

/// Every record has a position that leaves room for the logs of the receipt.
pub open spec fn positions_leave_room<T>(entry: Entry<T>, logs: nat) -> bool {
    &&& forall|i: int|
        0 <= i < entry.traces.len() ==> (#[trigger] entry.traces[i]).pos_in_parent_trace + logs
            < usize::MAX
    &&& forall|i: int|
        0 <= i < entry.error_traces.len() ==> (
        #[trigger] entry.error_traces[i]).pos_in_parent_trace + logs < usize::MAX
    &&& forall|i: int|
        0 <= i < entry.events.len() ==> (#[trigger] entry.events[i]).pos_in_parent_trace + logs
            < usize::MAX
    &&& forall|i: int|
        0 <= i < entry.error_events.len() ==> (
        #[trigger] entry.error_events[i]).pos_in_parent_trace + logs < usize::MAX
}

/// No other position is reached where room is made for the debit's logs than one of before, moved
/// by the room or not at all.
proof fn lemma_room_is_bounded<T>(
    placed: Entry<T>,
    root_id: Seq<char>,
    room: int,
    ids: Ids<T>,
    logs: nat,
)
    requires
        0 <= room <= logs <= usize::MAX,
        positions_leave_room(placed, logs),
    ensures
        next_position(with_room(placed, root_id, room, ids), root_id) + logs - room <= usize::MAX,
{
    let moved = with_room(placed, root_id, room, ids);
    lemma_room(placed, moved, root_id, room, ids);
    let all = links(moved);
    let next = next_position(moved, root_id);
    lemma_next_position_exists(all, root_id);
    assert(is_next_position(all, root_id, next));
    if next > 0 {
        let i = choose|i: int|
            0 <= i < all.len() && (#[trigger] all[i]).0 == root_id && all[i].1 == next - 1;
        let t = placed.traces.len() as int;
        let n = t + placed.error_traces.len();
        let e = n + placed.events.len();
        if i < n {
            assert(all[i].1 == moved.all_traces()[i].pos_in_parent_trace);
            if i < t {
                assert(placed.all_traces()[i] == placed.traces[i]);
            } else {
                assert(placed.all_traces()[i] == placed.error_traces[i - t]);
            }
        } else if i < e {
            assert(all[i].1 == moved.events[i - n].pos_in_parent_trace);
            assert(placed.events[i - n].pos_in_parent_trace + logs < usize::MAX);
        } else {
            assert(all[i].1 == moved.error_events[i - e].pos_in_parent_trace);
            assert(placed.error_events[i - e].pos_in_parent_trace + logs < usize::MAX);
        }
    }
}

/// Ordinary input of a reconciliation: the indexes of the logs fit, every log that is compared or
/// made into an event has a topic, or differs from its event before its topics matter, and
/// positions leave room for the logs.
pub open spec fn is_ordinary<T>(
    entry: Entry<T>,
    logs: Seq<LogModel>,
    hidden: bool,
    start: int,
    split: Option<Cip64LogSplit>,
) -> bool {
    &&& 0 <= start
    &&& start + logs.len() <= usize::MAX
    &&& debit_count(split) + entry.events.len() + credit_count(split) == logs.len()
        ==> forall|k: int|
        0 <= k < entry.events.len() ==> {
            let log = logs[debit_count(split) + k];
            ||| log.topics.len() > 0
            ||| (#[trigger] entry.events[k]).contract_id != log.address
            ||| entry.events[k].selector.len() > 0
        }
    &&& hidden ==> forall|i: int|
        0 <= i < logs.len() && !(debit_count(split) <= i < logs.len() - credit_count(split)) ==> (
        #[trigger] logs[i]).topics.len() > 0
    &&& hidden ==> positions_leave_room(entry, logs.len())
}

/// A reconciliation is defined on ordinary input.
pub proof fn law_ordinary_input_is_reconcilable<T>(
    entry: Entry<T>,
    logs: Seq<LogModel>,
    hidden: bool,
    start: int,
    split: Option<Cip64LogSplit>,
    ids: Ids<T>,
)
    requires
        is_ordinary(entry, logs, hidden, start, split),
    ensures
        reconcilable(entry, logs, hidden, start, split, ids),
{
    let all = entry.all_traces();
    let pre = debit_count(split);
    if root_index(all) is Some && pre + entry.events.len() + credit_count(split) == logs.len() {
        let root = root_index(all)->0;
        assert(is_root_at(all, root));
        lemma_disagreement(entry, logs, split);
        lemma_marked(entry, root, true);
        let range = (pre, pre + entry.events.len() as int);
        let main = logs.subrange(range.0, range.1);
        assert(comparison_defined(entry.events, main, start + pre)) by {
            assert forall|i: int|
                0 <= i < entry.events.len() && matches_before(
                    entry.events,
                    main,
                    i,
                ) implies comparable(#[trigger] entry.events[i], main[i]) && (matches_log(
                entry.events[i],
                main[i],
            ) ==> start + pre + i <= usize::MAX) by {
                assert(main[i] == logs[pre + i]);
            }
        }
        if hidden {
            let root_id = all[root].id;
            let current = marked(entry, root);
            let placed = with_indexes(current, logs, start, range);
            assert(positions_leave_room(placed, logs.len())) by {
                assert forall|i: int| 0 <= i < placed.traces.len() implies (
                #[trigger] placed.traces[i]).pos_in_parent_trace + logs.len() < usize::MAX by {
                    assert(placed.traces[i].pos_in_parent_trace
                        == entry.traces[i].pos_in_parent_trace);
                }
                assert forall|i: int| 0 <= i < placed.error_traces.len() implies (
                #[trigger] placed.error_traces[i]).pos_in_parent_trace + logs.len()
                    < usize::MAX by {
                    assert(placed.error_traces[i].pos_in_parent_trace
                        == entry.error_traces[i].pos_in_parent_trace);
                }
                assert forall|i: int| 0 <= i < placed.events.len() implies (
                #[trigger] placed.events[i]).pos_in_parent_trace + logs.len() < usize::MAX by {
                    assert(entry.events[i].pos_in_parent_trace + logs.len() < usize::MAX);
                }
                assert forall|i: int| 0 <= i < placed.error_events.len() implies (
                #[trigger] placed.error_events[i]).pos_in_parent_trace + logs.len()
                    < usize::MAX by {
                    assert(entry.error_events[i].pos_in_parent_trace + logs.len() < usize::MAX);
                }
            }
            lemma_room_is_bounded(placed, root_id, pre, ids, logs.len());
            assert(hidden_events_fit(placed, root_id, logs, start, range, ids));
        }
    }
}

/// The text for a refusal: what does not fit, with its numbers in decimal.
pub open spec fn tells(error: ReconcileError, text: Seq<char>) -> bool {
    match error {
        ReconcileError::Split { logs, pre, post } => text == "invalid CIP-64 receipt split: "@
            + decimal_text(logs as nat) + " logs, "@ + decimal_text(pre as nat) + " pre, "@
            + decimal_text(post as nat) + " post"@,
        ReconcileError::Count { inspector, receipt } => text
            == "inspector/receipt main-log count mismatch: "@ + decimal_text(inspector as nat)
            + " inspector logs, "@ + decimal_text(receipt as nat) + " receipt logs"@,
        ReconcileError::Mismatch { offset } => text
            == "inspector/receipt log mismatch at main-log offset "@ + decimal_text(offset as nat),
    }
}

/// `message` tells the refusal.
pub proof fn law_message(error: &ReconcileError, text: String)
    requires
        call_ensures(ReconcileError::message, (error,), text),
    ensures
        tells(*error, text@),
{
}

/// `reconcile_receipt_events` succeeds exactly where the entry has no root, or the inspector's
/// events agree with the logs between the debit's and the credit's. Else it tells the refusal. The
/// entry becomes what is reconciled of it.
pub proof fn law_reconcile_receipt_events<T, F, G>(
    entry: &mut TraceEntry<T>,
    receipt_logs: &[Log],
    hidden_storage_change: bool,
    canonical_log_start: usize,
    split: Option<Cip64LogSplit>,
    trace_id: &F,
    event_id: &G,
    outcome: Result<(), String>,
    ids: Ids<T>,
    root: int,
) where F: Fn(&DebankTrace<T>) -> String, G: Fn(&DebankEvent) -> String
    requires
        call_ensures(
            reconcile_receipt_events::<T, F, G>,
            (
                entry,
                receipt_logs,
                hidden_storage_change,
                canonical_log_start,
                split,
                trace_id,
                event_id,
            ),
            outcome,
        ),
        computes_ids(trace_id, event_id, ids),
        is_first_without_path(
            entry_model(*old(entry)).traces + entry_model(*old(entry)).error_traces,
            root,
        ),
    ensures
        ({
            let before = entry_model(*old(entry));
            let logs = log_models(receipt_logs@);
            let (after, error) = reconciled(
                before,
                logs,
                hidden_storage_change,
                canonical_log_start as int,
                split,
                ids,
            );
            &&& outcome is Ok <==> receipt_agrees(before, logs, split)
            &&& outcome matches Err(text) ==> error is Some && tells(error->0, text@)
            &&& entry_model(*final(entry)) == after
        }),
{
    let arguments = (
        entry,
        receipt_logs,
        hidden_storage_change,
        canonical_log_start,
        split,
        trace_id,
        event_id,
    );
    assert(computes_ids(arguments.5, arguments.6, ids));
    law_refused_only_for_a_cause(
        entry_model(*old(entry)),
        log_models(receipt_logs@),
        hidden_storage_change,
        canonical_log_start as int,
        split,
        ids,
        root,
    );
}

/// `reconcile_receipt_events` succeeds on an entry in which every frame has a path, and leaves it
/// as it is.
pub proof fn law_reconcile_without_root<T, F, G>(
    entry: &mut TraceEntry<T>,
    receipt_logs: &[Log],
    hidden_storage_change: bool,
    canonical_log_start: usize,
    split: Option<Cip64LogSplit>,
    trace_id: &F,
    event_id: &G,
    outcome: Result<(), String>,
    ids: Ids<T>,
) where F: Fn(&DebankTrace<T>) -> String, G: Fn(&DebankEvent) -> String
    requires
        call_ensures(
            reconcile_receipt_events::<T, F, G>,
            (
                entry,
                receipt_logs,
                hidden_storage_change,
                canonical_log_start,
                split,
                trace_id,
                event_id,
            ),
            outcome,
        ),
        computes_ids(trace_id, event_id, ids),
        forall|i: int|
            0 <= i < old(entry).0@.len() ==> (#[trigger] old(entry).0@[i]).trace_address@.len() > 0,
        forall|i: int|
            0 <= i < old(entry).1@.len() ==> (#[trigger] old(entry).1@[i]).trace_address@.len() > 0,
    ensures
        outcome is Ok,
        entry_model(*final(entry)) == entry_model(*old(entry)),
{
    let arguments = (
        entry,
        receipt_logs,
        hidden_storage_change,
        canonical_log_start,
        split,
        trace_id,
        event_id,
    );
    assert(computes_ids(arguments.5, arguments.6, ids));
    let before = entry_model(*old(entry));
    let all = before.traces + before.error_traces;
    assert forall|i: int| 0 <= i < all.len() implies (#[trigger] all[i]).trace_address.len() > 0 by {
        if i < before.traces.len() {
            assert(all[i] == old(entry).0@[i]@);
        } else {
            assert(all[i] == old(entry).1@[i - before.traces.len()]@);
        }
    }
    law_entry_without_root_is_left_alone(
        before,
        log_models(receipt_logs@),
        hidden_storage_change,
        canonical_log_start as int,
        split,
        ids,
    );
}

/// `try_reconcile` has an outcome exactly where nothing stands in the way, and then does what a
/// reconciliation does: it succeeds exactly where the inspector's events agree with the logs
/// between the debit's and the credit's.
pub proof fn law_try_reconcile<T, F, G>(
    entry: &mut TraceEntry<T>,
    receipt_logs: &[Log],
    hidden_storage_change: bool,
    canonical_log_start: usize,
    split: Option<Cip64LogSplit>,
    trace_id: &F,
    event_id: &G,
    outcome: Option<Result<(), ReconcileError>>,
    ids: Ids<T>,
    root: int,
) where F: Fn(&DebankTrace<T>) -> String, G: Fn(&DebankEvent) -> String
    requires
        call_ensures(
            try_reconcile::<T, F, G>,
            (
                entry,
                receipt_logs,
                hidden_storage_change,
                canonical_log_start,
                split,
                trace_id,
                event_id,
            ),
            outcome,
        ),
        computes_ids(trace_id, event_id, ids),
        is_first_without_path(
            entry_model(*old(entry)).traces + entry_model(*old(entry)).error_traces,
            root,
        ),
        receipt_logs@.len() <= usize::MAX,
    ensures
        ({
            let before = entry_model(*old(entry));
            let logs = log_models(receipt_logs@);
            let (after, error) = reconciled(
                before,
                logs,
                hidden_storage_change,
                canonical_log_start as int,
                split,
                ids,
            );
            &&& outcome is Some <==> nothing_in_the_way(
                before,
                logs,
                hidden_storage_change,
                canonical_log_start as int,
                split,
                ids,
                root,
            )
            &&& outcome matches Some(result) ==> {
                &&& result is Ok <==> receipt_agrees(before, logs, split)
                &&& result matches Err(told) ==> error == Some(told)
                &&& entry_model(*final(entry)) == after
            }
        }),
{
    let arguments = (
        entry,
        receipt_logs,
        hidden_storage_change,
        canonical_log_start,
        split,
        trace_id,
        event_id,
    );
    assert(computes_ids(arguments.5, arguments.6, ids));
    lemma_nothing_in_the_way(
        entry_model(*old(entry)),
        log_models(receipt_logs@),
        hidden_storage_change,
        canonical_log_start as int,
        split,
        ids,
        root,
    );
    law_refused_only_for_a_cause(
        entry_model(*old(entry)),
        log_models(receipt_logs@),
        hidden_storage_change,
        canonical_log_start as int,
        split,
        ids,
        root,
    );
}

/// The models of an entry and of logs are those of its records and of the logs, one by one.
pub proof fn law_models_keep_lists<T>(entry: TraceEntry<T>, logs: Seq<Log>)
    ensures
        ({
            let model = entry_model(entry);
            &&& model.traces.len() == entry.0@.len()
            &&& model.error_traces.len() == entry.1@.len()
            &&& model.events.len() == entry.2@.len()
            &&& model.error_events.len() == entry.3@.len()
            &&& forall|i: int|
                0 <= i < entry.0@.len() ==> #[trigger] model.traces[i] == entry.0@[i]@
            &&& forall|i: int|
                0 <= i < entry.1@.len() ==> #[trigger] model.error_traces[i] == entry.1@[i]@
            &&& forall|i: int|
                0 <= i < entry.2@.len() ==> #[trigger] model.events[i] == entry.2@[i]@
            &&& forall|i: int|
                0 <= i < entry.3@.len() ==> #[trigger] model.error_events[i] == entry.3@[i]@
            &&& log_models(logs).len() == logs.len()
            &&& forall|i: int| 0 <= i < logs.len() ==> #[trigger] log_models(logs)[i] == logs[i]@
        }),
{
}

/// Two functions that return what two functions of the models say are described by those.
pub proof fn law_identifiers<T, F, G>(
    trace_id: &F,
    event_id: &G,
    of_trace: spec_fn(TraceModel<T>) -> Seq<char>,
    of_event: spec_fn(EventModel) -> Seq<char>,
) where F: Fn(&DebankTrace<T>) -> String, G: Fn(&DebankEvent) -> String
    requires
        forall|trace: &DebankTrace<T>| call_requires(trace_id, (trace,)),
        forall|event: &DebankEvent| call_requires(event_id, (event,)),
        forall|trace: &DebankTrace<T>, id: String| #[trigger]
            call_ensures(trace_id, (trace,), id) ==> id@ == of_trace(trace@),
        forall|event: &DebankEvent, id: String| #[trigger]
            call_ensures(event_id, (event,), id) ==> id@ == of_event(event@),
    ensures
        computes_ids(trace_id, event_id, (Ids { trace: of_trace, event: of_event })),
        is_id_scheme::<T, F, G>(trace_id, event_id),
{
    assert(computes_ids(trace_id, event_id, Ids { trace: of_trace, event: of_event }));
}

} // verus!
