//! Reconciling the events that an inspector saw with the logs of the canonical receipt.
//!
//! The debit and the credit of a fee currency run as system calls that no inspector sees. Their
//! logs are in the receipt and not in the trace. The logs of the main execution stand between
//! them, and each must agree with the inspector's event for it.

use vstd::prelude::*;

use crate::event::{log_event, receipt_log_to_event};
use crate::index::{
    comparison_defined, first_mismatch, index_events, indexed, place_reverted, reverted,
};
use crate::order::{ordered, sort_events};
use crate::position::{find_next_position, next_position};
use crate::primitives::{count_to_string, decimal_text};
use crate::record::{
    computes_ids, entry_model, event_models, is_id_scheme, log_models, trace_models,
    Cip64LogSplit, DebankEvent, DebankTrace, Entry, EventModel, Ids, Log, LogModel, TraceEntry,
    TraceModel,
};
use crate::rekey::{does_shift_fit, shift_fits, shift_root_children, shifted};

verus! {

/// Why a trace and a receipt cannot be reconciled.
#[derive(Clone, Copy, Debug, PartialEq, Eq)]
pub enum ReconcileError {
    /// The receipt has fewer logs than the split takes off its ends.
    Split { logs: usize, pre: usize, post: usize },
    /// The inspector and the receipt disagree on the number of logs of the main execution.
    Count { inspector: usize, receipt: usize },
    /// The inspector's event at this place differs from the log of the receipt.
    Mismatch { offset: usize },
}

impl ReconcileError {
    /// The error as text.
    pub open spec fn text(self) -> Seq<char> {
        match self {
            ReconcileError::Split { logs, pre, post } => "invalid CIP-64 receipt split: "@
                + decimal_text(logs as nat) + " logs, "@ + decimal_text(pre as nat) + " pre, "@
                + decimal_text(post as nat) + " post"@,
            ReconcileError::Count { inspector, receipt } =>
                "inspector/receipt main-log count mismatch: "@ + decimal_text(inspector as nat)
                    + " inspector logs, "@ + decimal_text(receipt as nat) + " receipt logs"@,
            ReconcileError::Mismatch { offset } =>
                "inspector/receipt log mismatch at main-log offset "@ + decimal_text(offset as nat),
        }
    }

    /// The error as text.
    pub fn message(&self) -> (text: String)
        ensures
            text@ == self.text(),
    {
        match self {
            ReconcileError::Split { logs, pre, post } => {
                let mut text = "invalid CIP-64 receipt split: ".to_string();
                text.append(count_to_string(*logs).as_str());
                text.append(" logs, ");
                text.append(count_to_string(*pre).as_str());
                text.append(" pre, ");
                text.append(count_to_string(*post).as_str());
                text.append(" post");
                text
            },
            ReconcileError::Count { inspector, receipt } => {
                let mut text = "inspector/receipt main-log count mismatch: ".to_string();
                text.append(count_to_string(*inspector).as_str());
                text.append(" inspector logs, ");
                text.append(count_to_string(*receipt).as_str());
                text.append(" receipt logs");
                text
            },
            ReconcileError::Mismatch { offset } => {
                let mut text = "inspector/receipt log mismatch at main-log offset ".to_string();
                text.append(count_to_string(*offset).as_str());
                text
            },
        }
    }
}

/// The root stands at `i`: the first frame with an empty path.
pub open spec fn is_root_at<T>(traces: Seq<TraceModel<T>>, i: int) -> bool {
    &&& 0 <= i < traces.len()
    &&& traces[i].trace_address.len() == 0
    &&& forall|j: int| 0 <= j < i ==> (#[trigger] traces[j]).trace_address.len() != 0
}

/// Where the root stands, if there is one.
pub open spec fn root_index<T>(traces: Seq<TraceModel<T>>) -> Option<int> {
    if exists|i: int| is_root_at(traces, i) {
        Some(choose|i: int| is_root_at(traces, i))
    } else {
        None
    }
}

/// The frames with the storage change of the one at `i` set, if it is among them.
pub open spec fn with_storage_change<T>(
    traces: Seq<TraceModel<T>>,
    i: int,
) -> Seq<TraceModel<T>> {
    if 0 <= i < traces.len() {
        traces.update(i, TraceModel { storage_change: true, ..traces[i] })
    } else {
        traces
    }
}

/// The entry with the storage change of its root set.
pub open spec fn marked<T>(entry: Entry<T>, root: int) -> Entry<T> {
    Entry {
        traces: with_storage_change(entry.traces, root),
        error_traces: with_storage_change(entry.error_traces, root - entry.traces.len()),
        ..entry
    }
}

/// Where the logs of the main execution start and end, if the receipt has them.
pub open spec fn main_range(logs: nat, split: Option<Cip64LogSplit>) -> Option<(int, int)> {
    match split {
        Some(split) => if split.pre + split.post <= logs {
            Some((split.pre as int, logs - split.post))
        } else {
            None
        },
        None => Some((0, logs as int)),
    }
}

/// The event for a log that no inspector saw.
pub open spec fn hidden_event<T>(
    log: LogModel,
    root_id: Seq<char>,
    position: int,
    fallback_index: int,
    ids: Ids<T>,
) -> EventModel {
    let event = log_event(log, root_id, position, fallback_index);
    EventModel { id: (ids.event)(event), ..event }
}

/// The events for the logs from `from` up to `to`, children of the root from `position` on.
pub open spec fn hidden_events<T>(
    logs: Seq<LogModel>,
    from: int,
    to: int,
    root_id: Seq<char>,
    position: int,
    start: int,
    ids: Ids<T>,
) -> Seq<EventModel> {
    Seq::new(
        (to - from) as nat,
        |i: int| hidden_event(logs[from + i], root_id, position + i, start + from + i, ids),
    )
}

/// The entry with room for the debit's logs at the head of the root.
pub open spec fn with_room<T>(
    entry: Entry<T>,
    root_id: Seq<char>,
    room: int,
    ids: Ids<T>,
) -> Entry<T> {
    if room != 0 {
        shifted(entry, root_id, room, ids)
    } else {
        entry
    }
}

/// The position of the credit's first log: behind all children of the root, and behind the room
/// for the debit's logs.
pub open spec fn credit_position<T>(moved: Entry<T>, root_id: Seq<char>, room: int) -> int {
    let next = next_position(moved, root_id);
    if next > room {
        next
    } else {
        room
    }
}

/// The entry with the events for the logs before and behind those of the main execution.
pub open spec fn with_hidden_events<T>(
    entry: Entry<T>,
    root_id: Seq<char>,
    logs: Seq<LogModel>,
    start: int,
    range: (int, int),
    ids: Ids<T>,
) -> Entry<T> {
    let moved = with_room(entry, root_id, range.0, ids);
    let credit = credit_position(moved, root_id, range.0);
    Entry {
        events: ordered(
            moved.events + hidden_events(logs, 0, range.0, root_id, 0, start, ids) + hidden_events(
                logs,
                range.1,
                logs.len() as int,
                root_id,
                credit,
                start,
                ids,
            ),
        ),
        ..moved
    }
}

/// The entry with the canonical indexes of its events and its reverted events. `range` says where
/// the logs of the main execution stand in the receipt.
pub open spec fn with_indexes<T>(
    entry: Entry<T>,
    logs: Seq<LogModel>,
    start: int,
    range: (int, int),
) -> Entry<T> {
    let events = indexed(
        entry.events,
        logs.subrange(range.0, range.1),
        start + range.0,
        entry.events.len() as int,
    );
    Entry {
        events,
        error_events: reverted(entry.error_events, entry.events, events, start + range.0),
        ..entry
    }
}

/// Why the events and the logs cannot be reconciled, if they cannot.
pub open spec fn refusal(
    events: Seq<EventModel>,
    logs: Seq<LogModel>,
    split: Option<Cip64LogSplit>,
) -> Option<ReconcileError> {
    match main_range(logs.len(), split) {
        None => Some(
            ReconcileError::Split {
                logs: logs.len() as usize,
                pre: split->0.pre,
                post: split->0.post,
            },
        ),
        Some(range) => if range.1 - range.0 != events.len() {
            Some(
                ReconcileError::Count {
                    inspector: events.len() as usize,
                    receipt: (range.1 - range.0) as usize,
                },
            )
        } else {
            match first_mismatch(events, logs.subrange(range.0, range.1)) {
                Some(offset) => Some(ReconcileError::Mismatch { offset: offset as usize }),
                None => None,
            }
        },
    }
}

/// What is left of the entry where it is refused: the events before a mismatch have their
/// canonical indexes already.
pub open spec fn refused<T>(
    entry: Entry<T>,
    logs: Seq<LogModel>,
    start: int,
    split: Option<Cip64LogSplit>,
    error: ReconcileError,
) -> Entry<T> {
    match (error, main_range(logs.len(), split)) {
        (ReconcileError::Mismatch { offset }, Some(range)) => Entry {
            events: indexed(
                entry.events,
                logs.subrange(range.0, range.1),
                start + range.0,
                offset as int,
            ),
            ..entry
        },
        _ => entry,
    }
}

/// The entry after the reconciliation, and why it was refused, if it was.
///
/// An entry without a root is left as it is.
pub open spec fn reconciled<T>(
    entry: Entry<T>,
    logs: Seq<LogModel>,
    hidden: bool,
    start: int,
    split: Option<Cip64LogSplit>,
    ids: Ids<T>,
) -> (Entry<T>, Option<ReconcileError>) {
    match root_index(entry.all_traces()) {
        None => (entry, None),
        Some(root) => {
            let root_id = entry.all_traces()[root].id;
            let current = if hidden {
                marked(entry, root)
            } else {
                entry
            };
            match refusal(entry.events, logs, split) {
                Some(error) => (refused(current, logs, start, split, error), Some(error)),
                None => {
                    let range = main_range(logs.len(), split)->0;
                    let placed = with_indexes(current, logs, start, range);
                    if hidden {
                        (with_hidden_events(placed, root_id, logs, start, range, ids), None)
                    } else {
                        (Entry { events: ordered(placed.events), ..placed }, None)
                    }
                },
            }
        },
    }
}

/// The events for the hidden logs can be made: the logs have a topic, and their indexes and
/// positions fit.
pub open spec fn hidden_events_fit<T>(
    entry: Entry<T>,
    root_id: Seq<char>,
    logs: Seq<LogModel>,
    start: int,
    range: (int, int),
    ids: Ids<T>,
) -> bool {
    &&& range.0 != 0 ==> shift_fits(entry, root_id, range.0)
    &&& credit_position(with_room(entry, root_id, range.0, ids), root_id, range.0) + logs.len()
        - range.1 <= usize::MAX
    &&& forall|i: int|
        0 <= i < range.0 || range.1 <= i < logs.len() ==> (#[trigger] logs[i]).topics.len() > 0
            && start + i <= usize::MAX
}

/// The reconciliation is defined: as far as it gets, the events can be compared with the logs, and
/// every index and position fits into `usize`.
pub open spec fn reconcilable<T>(
    entry: Entry<T>,
    logs: Seq<LogModel>,
    hidden: bool,
    start: int,
    split: Option<Cip64LogSplit>,
    ids: Ids<T>,
) -> bool {
    let traces = entry.all_traces();
    root_index(traces) is Some ==> match main_range(logs.len(), split) {
        Some(range) if range.1 - range.0 == entry.events.len() => {
            let main = logs.subrange(range.0, range.1);
            &&& comparison_defined(entry.events, main, start + range.0)
            &&& first_mismatch(entry.events, main) is None ==> {
                &&& entry.error_events.len() > 0 ==> start + range.0 <= usize::MAX
                &&& hidden ==> hidden_events_fit(
                    with_indexes(marked(entry, root_index(traces)->0), logs, start, range),
                    traces[root_index(traces)->0].id,
                    logs,
                    start,
                    range,
                    ids,
                )
            }
        },
        _ => true,
    }
}

/// The first frame with an empty path.
fn find_root<T>(traces: &Vec<DebankTrace<T>>) -> (root: Option<usize>)
    ensures
        match root {
            Some(i) => is_root_at(trace_models(traces@), i as int),
            None => forall|i: int|
                0 <= i < traces@.len() ==> (#[trigger] trace_models(
                    traces@,
                )[i]).trace_address.len() != 0,
        },
{
    let ghost models = trace_models(traces@);
    let mut i: usize = 0;
    while i < traces.len()
        invariant
            i <= traces@.len(),
            models == trace_models(traces@),
            forall|j: int| 0 <= j < i ==> (#[trigger] models[j]).trace_address.len() != 0,
        decreases traces@.len() - i,
    {
        assert(models[i as int] == traces@[i as int]@);
        if traces[i].trace_address.is_empty() {
            return Some(i);
        }
        i += 1;
    }
    None
}

/// There is one root.
proof fn lemma_root_unique<T>(traces: Seq<TraceModel<T>>, i: int)
    requires
        is_root_at(traces, i),
    ensures
        root_index(traces) == Some(i),
{
    let other = choose|j: int| is_root_at(traces, j);
    assert(is_root_at(traces, other));
    if other < i {
        assert(traces[other].trace_address.len() != 0);
    } else if i < other {
        assert(traces[i].trace_address.len() != 0);
    }
}

/// Appends the events for the logs from `from` up to `to`.
fn push_hidden_events<T, F, G>(
    events: &mut Vec<DebankEvent>,
    logs: &[Log],
    from: usize,
    to: usize,
    root_id: &String,
    position: usize,
    start: usize,
    trace_id: &F,
    event_id: &G,
) where F: Fn(&DebankTrace<T>) -> String, G: Fn(&DebankEvent) -> String
    requires
        is_id_scheme(trace_id, event_id),
        from <= to <= logs@.len(),
        position + to - from <= usize::MAX,
        forall|i: int|
            from <= i < to ==> (#[trigger] logs@[i]).topics@.len() > 0 && start + i <= usize::MAX,
    ensures
        forall|ids: Ids<T>| #[trigger]
            computes_ids(trace_id, event_id, ids) ==> event_models(final(events)@) == event_models(
                old(events)@,
            ) + hidden_events(
                log_models(logs@),
                from as int,
                to as int,
                root_id@,
                position as int,
                start as int,
                ids,
            ),
{
    let ghost before = event_models(events@);
    let ghost models = log_models(logs@);
    let mut next: usize = position;
    let mut i: usize = from;
    while i < to
        invariant
            is_id_scheme(trace_id, event_id),
            from <= i <= to <= logs@.len(),
            position + to - from <= usize::MAX,
            next == position + i - from,
            models == log_models(logs@),
            forall|j: int|
                from <= j < to ==> (#[trigger] logs@[j]).topics@.len() > 0 && start + j
                    <= usize::MAX,
            events@.len() == before.len() + i - from,
            forall|j: int| 0 <= j < before.len() ==> (#[trigger] events@[j])@ == before[j],
            forall|ids: Ids<T>| #[trigger]
                computes_ids(trace_id, event_id, ids) ==> forall|j: int|
                    before.len() <= j < events@.len() ==> (#[trigger] events@[j])@ == hidden_event(
                        models[from + j - before.len()],
                        root_id@,
                        position + j - before.len(),
                        start + from + j - before.len(),
                        ids,
                    ),
        decreases to - i,
    {
        let ghost earlier = events@;
        let log = &logs[i];
        let fallback: usize = start + i;
        let mut event = receipt_log_to_event(log, root_id.clone(), next, fallback);
        let id = event_id(&event);
        event.id = id;
        events.push(event);
        proof {
            assert(events@.drop_last() =~= earlier);
            assert forall|ids: Ids<T>| #[trigger]
                computes_ids(trace_id, event_id, ids) implies forall|j: int|
                before.len() <= j < events@.len() ==> (#[trigger] events@[j])@ == hidden_event(
                    models[from + j - before.len()],
                    root_id@,
                    position + j - before.len(),
                    start + from + j - before.len(),
                    ids,
                ) by {
                assert forall|j: int| before.len() <= j < events@.len() implies (
                #[trigger] events@[j])@ == hidden_event(
                    models[from + j - before.len()],
                    root_id@,
                    position + j - before.len(),
                    start + from + j - before.len(),
                    ids,
                ) by {
                    if j < earlier.len() {
                        assert(events@[j] == earlier[j]);
                    }
                }
            }
        }
        next += 1;
        i += 1;
    }
    proof {
        assert forall|ids: Ids<T>| #[trigger]
            computes_ids(trace_id, event_id, ids) implies event_models(events@) == before
            + hidden_events(
            models,
            from as int,
            to as int,
            root_id@,
            position as int,
            start as int,
            ids,
        ) by {
            assert(event_models(events@) =~= before + hidden_events(
                models,
                from as int,
                to as int,
                root_id@,
                position as int,
                start as int,
                ids,
            ));
        }
    }
}

/// Where the logs of the main execution start and end.
fn find_main_range(logs: usize, split: Option<Cip64LogSplit>) -> (range: Result<
    (usize, usize),
    ReconcileError,
>)
    ensures
        match range {
            Ok(range) => range.0 <= range.1 <= logs && main_range(logs as nat, split) == Some(
                (range.0 as int, range.1 as int),
            ),
            Err(error) => main_range(logs as nat, split) is None && error
                == (ReconcileError::Split { logs, pre: split->0.pre, post: split->0.post }),
        },
{
    match split {
        Some(split) => {
            if split.post > logs || split.pre > logs - split.post {
                Err(ReconcileError::Split { logs, pre: split.pre, post: split.post })
            } else {
                Ok((split.pre, logs - split.post))
            }
        },
        None => Ok((0, logs)),
    }
}

/// Sets the storage change of the root, if `hidden`, and returns its identifier. Returns nothing
/// where there is no root.
fn mark_root<T>(entry: &mut TraceEntry<T>, hidden: bool) -> (root_id: Option<String>)
    ensures
        ({
            let before = entry_model(*old(entry));
            let root = root_index(before.all_traces());
            match root_id {
                Some(id) => {
                    &&& root is Some
                    &&& id@ == before.all_traces()[root->0].id
                    &&& entry_model(*final(entry)) == if hidden {
                        marked(before, root->0)
                    } else {
                        before
                    }
                },
                None => root is None && entry_model(*final(entry)) == before,
            }
        }),
{
    let ghost before = entry_model(*entry);
    let ghost all = before.all_traces();
    match find_root(&entry.0) {
        Some(i) => {
            proof {
                assert(forall|j: int| 0 <= j < before.traces.len() ==> #[trigger] all[j] == before.traces[j]);
                assert(is_root_at(all, i as int));
                lemma_root_unique(all, i as int);
            }
            if hidden {
                entry.0[i].storage_change = true;
            }
            proof {
                assert(trace_models(entry.0@) =~= if hidden {
                    with_storage_change(before.traces, i as int)
                } else {
                    before.traces
                });
            }
            Some(entry.0[i].id.clone())
        },
        None => match find_root(&entry.1) {
            Some(i) => {
                let ghost at = before.traces.len() + i;
                proof {
                    assert forall|j: int| 0 <= j < at implies (
                    #[trigger] all[j]).trace_address.len() != 0 by {
                        if j < before.traces.len() {
                            assert(all[j] == before.traces[j]);
                        } else {
                            assert(all[j] == before.error_traces[j - before.traces.len()]);
                        }
                    }
                    assert(all[at as int] == before.error_traces[i as int]);
                    assert(is_root_at(all, at as int));
                    lemma_root_unique(all, at as int);
                }
                if hidden {
                    entry.1[i].storage_change = true;
                }
                proof {
                    assert(trace_models(entry.1@) =~= if hidden {
                        with_storage_change(before.error_traces, i as int)
                    } else {
                        before.error_traces
                    });
                }
                Some(entry.1[i].id.clone())
            },
            None => {
                proof {
                    assert forall|j: int| !is_root_at(all, j) by {
                        if 0 <= j < before.traces.len() {
                            assert(all[j] == before.traces[j]);
                        } else if 0 <= j < all.len() {
                            assert(all[j] == before.error_traces[j - before.traces.len()]);
                        }
                    }
                }
                None
            },
        },
    }
}

/// Whether the logs from `from` up to `to` have a topic and an index that fits.
fn can_be_hidden(logs: &[Log], from: usize, to: usize, start: usize) -> (can: bool)
    requires
        from <= to <= logs@.len(),
    ensures
        can == forall|i: int|
            from <= i < to ==> (#[trigger] log_models(logs@)[i]).topics.len() > 0 && start + i
                <= usize::MAX,
{
    let ghost models = log_models(logs@);
    let mut i: usize = from;
    while i < to
        invariant
            from <= i <= to <= logs@.len(),
            models == log_models(logs@),
            forall|j: int|
                from <= j < i ==> (#[trigger] models[j]).topics.len() > 0 && start + j
                    <= usize::MAX,
        decreases to - i,
    {
        if logs[i].topics.len() == 0 || start > usize::MAX - i {
            assert(!(models[i as int].topics.len() > 0 && start + i <= usize::MAX));
            return false;
        }
        i += 1;
    }
    true
}

/// Adds the events for the logs before and behind those of the main execution. Returns whether
/// they fit; where they do not, nothing is said of the entry.
fn add_hidden_events<T, F, G>(
    entry: &mut TraceEntry<T>,
    root_id: &String,
    logs: &[Log],
    start: usize,
    range: (usize, usize),
    trace_id: &F,
    event_id: &G,
) -> (added: bool) where F: Fn(&DebankTrace<T>) -> String, G: Fn(&DebankEvent) -> String
    requires
        is_id_scheme(trace_id, event_id),
        range.0 <= range.1 <= logs@.len(),
    ensures
        forall|ids: Ids<T>| #[trigger]
            computes_ids(trace_id, event_id, ids) ==> {
                &&& added == hidden_events_fit(
                    entry_model(*old(entry)),
                    root_id@,
                    log_models(logs@),
                    start as int,
                    (range.0 as int, range.1 as int),
                    ids,
                )
                &&& added ==> entry_model(*final(entry)) == with_hidden_events(
                    entry_model(*old(entry)),
                    root_id@,
                    log_models(logs@),
                    start as int,
                    (range.0 as int, range.1 as int),
                    ids,
                )
            },
{
    let ghost before = entry_model(*entry);
    let ghost models = log_models(logs@);
    let count: usize = logs.len();
    if !can_be_hidden(logs, 0, range.0, start) || !can_be_hidden(logs, range.1, count, start) {
        return false;
    }
    proof {
        assert forall|i: int|
            0 <= i < range.0 || range.1 <= i < logs@.len() implies (
        #[trigger] logs@[i]).topics@.len() > 0 && start + i <= usize::MAX by {
            assert(models[i].topics.len() > 0);
        }
    }
    if range.0 != 0 {
        if !does_shift_fit(entry, root_id, range.0) {
            return false;
        }
        shift_root_children(entry, root_id.as_str(), range.0, trace_id, event_id);
    }
    let ghost moved = entry_model(*entry);
    assert(forall|ids: Ids<T>| #[trigger]
        computes_ids(trace_id, event_id, ids) ==> moved == with_room(
            before,
            root_id@,
            range.0 as int,
            ids,
        ));
    let credit: usize = match find_next_position(entry, root_id) {
        Some(next) => if next > range.0 {
            next
        } else {
            range.0
        },
        None => {
            return false;
        },
    };
    if credit > usize::MAX - (count - range.1) {
        return false;
    }
    push_hidden_events(&mut entry.2, logs, 0, range.0, root_id, 0, start, trace_id, event_id);
    push_hidden_events(
        &mut entry.2,
        logs,
        range.1,
        count,
        root_id,
        credit,
        start,
        trace_id,
        event_id,
    );
    sort_events(&mut entry.2);
    true
}

/// Reconciles an entry with a receipt. Returns nothing where that is not defined; then nothing is
/// said of the entry.
pub fn try_reconcile<T, F, G>(
    entry: &mut TraceEntry<T>,
    receipt_logs: &[Log],
    hidden_storage_change: bool,
    canonical_log_start: usize,
    split: Option<Cip64LogSplit>,
    trace_id: &F,
    event_id: &G,
) -> (outcome: Option<Result<(), ReconcileError>>) where
    F: Fn(&DebankTrace<T>) -> String,
    G: Fn(&DebankEvent) -> String,

    requires
        is_id_scheme(trace_id, event_id),
    ensures
        forall|ids: Ids<T>| #[trigger]
            computes_ids(trace_id, event_id, ids) ==> {
                let (after, error) = reconciled(
                    entry_model(*old(entry)),
                    log_models(receipt_logs@),
                    hidden_storage_change,
                    canonical_log_start as int,
                    split,
                    ids,
                );
                &&& outcome is Some == reconcilable(
                    entry_model(*old(entry)),
                    log_models(receipt_logs@),
                    hidden_storage_change,
                    canonical_log_start as int,
                    split,
                    ids,
                )
                &&& outcome is Some ==> entry_model(*final(entry)) == after && outcome->0
                    == match error {
                    Some(error) => Err::<(), ReconcileError>(error),
                    None => Ok(()),
                }
            },
{
    let ghost before = entry_model(*entry);
    let ghost models = log_models(receipt_logs@);
    let ghost start = canonical_log_start as int;
    let root_id = match mark_root(entry, hidden_storage_change) {
        Some(root_id) => root_id,
        None => return Some(Ok(())),
    };
    let ghost current = entry_model(*entry);
    let range = match find_main_range(receipt_logs.len(), split) {
        Ok(range) => range,
        Err(error) => return Some(Err(error)),
    };
    let ghost bounds = (range.0 as int, range.1 as int);
    if range.1 - range.0 != entry.2.len() {
        return Some(
            Err(ReconcileError::Count { inspector: entry.2.len(), receipt: range.1 - range.0 }),
        );
    }
    let boundaries = match index_events(
        &mut entry.2,
        receipt_logs,
        range.0,
        canonical_log_start,
    ) {
        Some(Ok(boundaries)) => boundaries,
        Some(Err(offset)) => return Some(Err(ReconcileError::Mismatch { offset })),
        None => return None,
    };
    if entry.3.len() > 0 && canonical_log_start > usize::MAX - range.0 {
        return None;
    }
    let ghost canonical = event_models(entry.2@);
    place_reverted(
        &mut entry.3,
        &boundaries,
        range.0,
        canonical_log_start,
        Ghost(before.events),
        Ghost(canonical),
    );
    assert(entry_model(*entry) == with_indexes(current, models, start, bounds));
    if !hidden_storage_change {
        sort_events(&mut entry.2);
        return Some(Ok(()));
    }
    if add_hidden_events(
        entry,
        &root_id,
        receipt_logs,
        canonical_log_start,
        range,
        trace_id,
        event_id,
    ) {
        Some(Ok(()))
    } else {
        None
    }
}

/// Reconciles the events that an inspector saw with the logs of the canonical receipt.
///
/// The logs of the debit and the credit are in the receipt and not in the trace: where
/// `hidden_storage_change`, an event is made for each and given to the root frame, the debit's
/// first, the credit's last. The indexes of the receipt also repair the insertion index of
/// reverted events.
///
/// `canonical_log_start` is the index of the receipt's first log, for logs that have none.
pub fn reconcile_receipt_events<T, F, G>(
    entry: &mut TraceEntry<T>,
    receipt_logs: &[Log],
    hidden_storage_change: bool,
    canonical_log_start: usize,
    split: Option<Cip64LogSplit>,
    trace_id: &F,
    event_id: &G,
) -> (outcome: Result<(), String>) where
    F: Fn(&DebankTrace<T>) -> String,
    G: Fn(&DebankEvent) -> String,

    requires
        is_id_scheme(trace_id, event_id),
        forall|ids: Ids<T>| #[trigger]
            computes_ids(trace_id, event_id, ids) ==> reconcilable(
                entry_model(*old(entry)),
                log_models(receipt_logs@),
                hidden_storage_change,
                canonical_log_start as int,
                split,
                ids,
            ),
    ensures
        forall|ids: Ids<T>| #[trigger]
            computes_ids(trace_id, event_id, ids) ==> {
                let (after, error) = reconciled(
                    entry_model(*old(entry)),
                    log_models(receipt_logs@),
                    hidden_storage_change,
                    canonical_log_start as int,
                    split,
                    ids,
                );
                &&& entry_model(*final(entry)) == after
                &&& match (outcome, error) {
                    (Ok(()), None) => true,
                    (Err(text), Some(error)) => text@ == error.text(),
                    _ => false,
                }
            },
{
    let outcome = try_reconcile(
        entry,
        receipt_logs,
        hidden_storage_change,
        canonical_log_start,
        split,
        trace_id,
        event_id,
    );
    proof {
        let ids = choose|ids: Ids<T>| computes_ids(trace_id, event_id, ids);
        assert(computes_ids(trace_id, event_id, ids));
    }
    match outcome.unwrap() {
        Ok(()) => Ok(()),
        Err(error) => Err(error.message()),
    }
}

} // verus!
