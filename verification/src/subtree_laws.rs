//! What a shift of the root's children keeps.

use vstd::prelude::*;

use crate::record::{Entry, EventModel, Ids, TraceModel};
use crate::rekey::{
    changed_ids, is_moved, moved_event, moved_events, moved_trace, moved_traces, shifted,
};

verus! {

/// What a shift leaves alone in a frame.
pub open spec fn same_frame<T>(left: TraceModel<T>, right: TraceModel<T>) -> bool {
    &&& left.tx_id == right.tx_id
    &&& left.trace_address == right.trace_address
    &&& left.storage_change == right.storage_change
    &&& left.rest == right.rest
}

/// What a shift leaves alone in an event.
pub open spec fn same_event(left: EventModel, right: EventModel) -> bool {
    &&& left.contract_id == right.contract_id
    &&& left.selector == right.selector
    &&& left.topics == right.topics
    &&& left.data == right.data
    &&& left.idx == right.idx
}

/// A shift moves the frame at `i`.
pub open spec fn is_moved_at<T>(
    traces: Seq<TraceModel<T>>,
    root_id: Seq<char>,
    shift: int,
    ids: Ids<T>,
    i: int,
) -> bool {
    is_moved(
        traces[i].parent_trace_id,
        root_id,
        changed_ids(traces.take(i), root_id, shift, Map::empty(), ids),
    )
}

/// Events that are not below the root stay as they are, and only the root's own children change
/// their position.
pub open spec fn events_stay_outside(
    before: Seq<EventModel>,
    after: Seq<EventModel>,
    root_id: Seq<char>,
    changed: Map<Seq<char>, Seq<char>>,
) -> bool {
    forall|i: int|
        0 <= i < before.len() ==> {
            &&& !is_moved(before[i].parent_trace_id, root_id, changed) ==> (
            #[trigger] after[i]) == before[i]
            &&& before[i].parent_trace_id != root_id ==> after[i].pos_in_parent_trace
                == before[i].pos_in_parent_trace
        }
}

/// A shift adds, drops and reorders nothing. It changes no more of a record than its identifier,
/// its parent's and its position, and nothing of a record that is not below the root. Only the
/// root's own children change their position.
pub proof fn law_shift_keeps_records<T>(
    entry: Entry<T>,
    root_id: Seq<char>,
    shift: int,
    ids: Ids<T>,
)
    ensures
        ({
            let all = entry.all_traces();
            let changed = changed_ids(all, root_id, shift, Map::empty(), ids);
            let after = shifted(entry, root_id, shift, ids);
            &&& after.traces.len() == entry.traces.len()
            &&& after.error_traces.len() == entry.error_traces.len()
            &&& after.events.len() == entry.events.len()
            &&& after.error_events.len() == entry.error_events.len()
            &&& forall|i: int|
                0 <= i < entry.traces.len() ==> same_frame(
                    entry.traces[i],
                    #[trigger] after.traces[i],
                )
            &&& forall|i: int|
                0 <= i < entry.error_traces.len() ==> same_frame(
                    entry.error_traces[i],
                    #[trigger] after.error_traces[i],
                )
            &&& forall|i: int|
                0 <= i < entry.events.len() ==> same_event(
                    entry.events[i],
                    #[trigger] after.events[i],
                )
            &&& forall|i: int|
                0 <= i < entry.error_events.len() ==> same_event(
                    entry.error_events[i],
                    #[trigger] after.error_events[i],
                )
            &&& forall|i: int|
                0 <= i < all.len() && !is_moved_at(all, root_id, shift, ids, i)
                    ==> #[trigger] after.all_traces()[i] == all[i]
            &&& forall|i: int|
                0 <= i < all.len() && all[i].parent_trace_id != root_id ==> (
                #[trigger] after.all_traces()[i]).pos_in_parent_trace == all[i].pos_in_parent_trace
            &&& events_stay_outside(entry.events, after.events, root_id, changed)
            &&& events_stay_outside(entry.error_events, after.error_events, root_id, changed)
        }),
{
    lemma_shift_is_one_list(entry, root_id, shift, ids);
}

/// A shift moves every child of the root by the same number of positions, and leaves it a child of
/// the root.
pub proof fn law_children_move_together<T>(
    entry: Entry<T>,
    root_id: Seq<char>,
    shift: int,
    ids: Ids<T>,
)
    ensures
        ({
            let after = shifted(entry, root_id, shift, ids);
            &&& forall|i: int|
                0 <= i < entry.all_traces().len() && entry.all_traces()[i].parent_trace_id
                    == root_id ==> (#[trigger] after.all_traces()[i]).parent_trace_id == root_id
                    && after.all_traces()[i].pos_in_parent_trace
                    == entry.all_traces()[i].pos_in_parent_trace + shift
            &&& forall|i: int|
                0 <= i < entry.events.len() && entry.events[i].parent_trace_id == root_id ==> (
                #[trigger] after.events[i]).parent_trace_id == root_id
                    && after.events[i].pos_in_parent_trace == entry.events[i].pos_in_parent_trace
                    + shift
            &&& forall|i: int|
                0 <= i < entry.error_events.len() && entry.error_events[i].parent_trace_id
                    == root_id ==> (#[trigger] after.error_events[i]).parent_trace_id == root_id
                    && after.error_events[i].pos_in_parent_trace
                    == entry.error_events[i].pos_in_parent_trace + shift
        }),
{
}

/// No frame that a shift moves is given the root's identifier.
pub open spec fn avoids_root<T>(
    traces: Seq<TraceModel<T>>,
    root_id: Seq<char>,
    shift: int,
    ids: Ids<T>,
) -> bool {
    forall|i: int|
        0 <= i < traces.len() && #[trigger] is_moved_at(traces, root_id, shift, ids, i)
            ==> moved_traces(traces, root_id, shift, Map::empty(), ids)[i].id != root_id
}

/// No two frames have one identifier.
pub open spec fn distinct_ids<T>(traces: Seq<TraceModel<T>>) -> bool {
    forall|i: int, j: int|
        0 <= i < j < traces.len() ==> (#[trigger] traces[i]).id != (#[trigger] traces[j]).id
}

/// The identifiers of two lists of frames change as those of the one list that they make up.
proof fn lemma_changed_add<T>(
    left: Seq<TraceModel<T>>,
    right: Seq<TraceModel<T>>,
    root_id: Seq<char>,
    shift: int,
    changed: Map<Seq<char>, Seq<char>>,
    ids: Ids<T>,
)
    ensures
        changed_ids(left + right, root_id, shift, changed, ids) == changed_ids(
            right,
            root_id,
            shift,
            changed_ids(left, root_id, shift, changed, ids),
            ids,
        ),
    decreases right.len(),
{
    if right.len() == 0 {
        assert(left + right =~= left);
    } else {
        assert((left + right).drop_last() =~= left + right.drop_last());
        assert((left + right).last() == right.last());
        lemma_changed_add(left, right.drop_last(), root_id, shift, changed, ids);
    }
}

/// All frames of an entry move as one list.
pub proof fn lemma_shift_is_one_list<T>(
    entry: Entry<T>,
    root_id: Seq<char>,
    shift: int,
    ids: Ids<T>,
)
    ensures
        shifted(entry, root_id, shift, ids).all_traces() == moved_traces(
            entry.all_traces(),
            root_id,
            shift,
            Map::empty(),
            ids,
        ),
        shifted(entry, root_id, shift, ids).events == moved_events(
            entry.events,
            root_id,
            shift,
            changed_ids(entry.all_traces(), root_id, shift, Map::empty(), ids),
            ids,
        ),
        shifted(entry, root_id, shift, ids).error_events == moved_events(
            entry.error_events,
            root_id,
            shift,
            changed_ids(entry.all_traces(), root_id, shift, Map::empty(), ids),
            ids,
        ),
{
    let none = Map::<Seq<char>, Seq<char>>::empty();
    let all = entry.all_traces();
    let after = shifted(entry, root_id, shift, ids).all_traces();
    let moved = moved_traces(all, root_id, shift, none, ids);
    lemma_changed_add(entry.traces, entry.error_traces, root_id, shift, none, ids);
    assert forall|i: int| 0 <= i < all.len() implies #[trigger] after[i] == moved[i] by {
        if i < entry.traces.len() {
            assert(all.take(i) =~= entry.traces.take(i));
        } else {
            let k = i - entry.traces.len();
            assert(all.take(i) =~= entry.traces + entry.error_traces.take(k));
            lemma_changed_add(entry.traces, entry.error_traces.take(k), root_id, shift, none, ids);
        }
    }
    assert(after =~= moved);
}

/// Every identifier in the table is the old one of some frame.
proof fn lemma_changed_domain<T>(
    traces: Seq<TraceModel<T>>,
    root_id: Seq<char>,
    shift: int,
    ids: Ids<T>,
    id: Seq<char>,
)
    requires
        changed_ids(traces, root_id, shift, Map::empty(), ids).contains_key(id),
    ensures
        exists|i: int| 0 <= i < traces.len() && (#[trigger] traces[i]).id == id,
    decreases traces.len(),
{
    if traces.len() > 0 {
        let front = traces.drop_last();
        if traces.last().id == id {
            assert(traces[traces.len() - 1].id == id);
        } else {
            lemma_changed_domain(front, root_id, shift, ids, id);
            let i = choose|i: int| 0 <= i < front.len() && (#[trigger] front[i]).id == id;
            assert(traces[i] == front[i]);
        }
    }
}

/// Where the identifiers of the frames are distinct, the table gives each moved frame its new one,
/// and none to a frame that stays.
proof fn lemma_changed_at<T>(
    traces: Seq<TraceModel<T>>,
    root_id: Seq<char>,
    shift: int,
    ids: Ids<T>,
    i: int,
)
    requires
        0 <= i < traces.len(),
        distinct_ids(traces),
    ensures
        ({
            let changed = changed_ids(traces, root_id, shift, Map::empty(), ids);
            let moved = moved_traces(traces, root_id, shift, Map::empty(), ids)[i];
            if changed.contains_key(traces[i].id) {
                changed[traces[i].id] == moved.id
            } else {
                moved == traces[i]
            }
        }),
    decreases traces.len(),
{
    let none = Map::<Seq<char>, Seq<char>>::empty();
    let front = traces.drop_last();
    let n = traces.len() - 1;
    assert(traces.take(n) =~= front);
    let before = changed_ids(front, root_id, shift, none, ids);
    if i == n {
        if before.contains_key(traces[i].id) {
            lemma_changed_domain(front, root_id, shift, ids, traces[i].id);
            let p = choose|p: int| 0 <= p < front.len() && (#[trigger] front[p]).id == traces[i].id;
            assert(traces[p] == front[p]);
        }
    } else {
        assert(front[i] == traces[i]);
        assert forall|p: int, q: int| 0 <= p < q < front.len() implies (#[trigger] front[p]).id != (
        #[trigger] front[q]).id by {
            assert(traces[p] == front[p] && traces[q] == front[q]);
        }
        lemma_changed_at(front, root_id, shift, ids, i);
        assert(front.take(i) =~= traces.take(i));
        assert(traces[i].id != traces[n].id);
    }
}

/// The frames before a frame tell what becomes of a parent that is among them.
proof fn lemma_changed_before<T>(
    traces: Seq<TraceModel<T>>,
    root_id: Seq<char>,
    shift: int,
    ids: Ids<T>,
    i: int,
    j: int,
)
    requires
        0 <= i < j <= traces.len(),
        distinct_ids(traces),
    ensures
        ({
            let changed = changed_ids(traces.take(j), root_id, shift, Map::empty(), ids);
            let moved = moved_traces(traces, root_id, shift, Map::empty(), ids)[i];
            if changed.contains_key(traces[i].id) {
                changed[traces[i].id] == moved.id
            } else {
                moved == traces[i]
            }
        }),
{
    let front = traces.take(j);
    assert forall|p: int, q: int| 0 <= p < q < front.len() implies (#[trigger] front[p]).id != (
    #[trigger] front[q]).id by {
        assert(traces[p] == front[p] && traces[q] == front[q]);
    }
    lemma_changed_at(front, root_id, shift, ids, i);
    assert(front.take(i) =~= traces.take(i));
}

/// A frame still names its parent after a shift. The parent is the root and is not moved, or it
/// stands before the frame and the identifiers of the frames are distinct.
pub proof fn law_frames_keep_parents<T>(
    entry: Entry<T>,
    root_id: Seq<char>,
    shift: int,
    ids: Ids<T>,
    i: int,
    j: int,
)
    requires
        0 <= i < entry.all_traces().len(),
        0 <= j < entry.all_traces().len(),
        entry.all_traces()[j].parent_trace_id == entry.all_traces()[i].id,
        if entry.all_traces()[i].id == root_id {
            !is_moved_at(entry.all_traces(), root_id, shift, ids, i)
        } else {
            i < j && distinct_ids(entry.all_traces())
        },
    ensures
        shifted(entry, root_id, shift, ids).all_traces()[j].parent_trace_id == shifted(
            entry,
            root_id,
            shift,
            ids,
        ).all_traces()[i].id,
{
    let all = entry.all_traces();
    lemma_shift_is_one_list(entry, root_id, shift, ids);
    if all[i].id != root_id {
        lemma_changed_before(all, root_id, shift, ids, i, j);
    }
}

/// An event still names its frame after a shift. The frame is the root and is not moved, or the
/// identifiers of the frames are distinct.
pub proof fn law_events_keep_parents<T>(
    entry: Entry<T>,
    root_id: Seq<char>,
    shift: int,
    ids: Ids<T>,
    i: int,
)
    requires
        0 <= i < entry.all_traces().len(),
        if entry.all_traces()[i].id == root_id {
            !is_moved_at(entry.all_traces(), root_id, shift, ids, i)
        } else {
            distinct_ids(entry.all_traces())
        },
    ensures
        forall|k: int|
            0 <= k < entry.events.len() && (#[trigger] entry.events[k]).parent_trace_id
                == entry.all_traces()[i].id ==> shifted(
                entry,
                root_id,
                shift,
                ids,
            ).events[k].parent_trace_id == shifted(entry, root_id, shift, ids).all_traces()[i].id,
        forall|k: int|
            0 <= k < entry.error_events.len() && (#[trigger] entry.error_events[k]).parent_trace_id
                == entry.all_traces()[i].id ==> shifted(
                entry,
                root_id,
                shift,
                ids,
            ).error_events[k].parent_trace_id == shifted(
                entry,
                root_id,
                shift,
                ids,
            ).all_traces()[i].id,
{
    let all = entry.all_traces();
    lemma_shift_is_one_list(entry, root_id, shift, ids);
    if all[i].id != root_id {
        lemma_changed_before(all, root_id, shift, ids, i, all.len() as int);
        assert(all.take(all.len() as int) =~= all);
    }
}

/// The identifier of a record does not depend on the one that it has.
pub open spec fn ignores_id<T>(ids: Ids<T>) -> bool {
    &&& forall|left: TraceModel<T>, right: TraceModel<T>|
        left == (TraceModel { id: left.id, ..right }) ==> #[trigger] (ids.trace)(left)
            == #[trigger] (ids.trace)(right)
    &&& forall|left: EventModel, right: EventModel|
        left == (EventModel { id: left.id, ..right }) ==> #[trigger] (ids.event)(left)
            == #[trigger] (ids.event)(right)
}

/// After a shift, every record that it moved has the identifier that is computed for it; and so has
/// every record that had it before.
pub proof fn law_shift_keeps_computed_ids<T>(
    entry: Entry<T>,
    root_id: Seq<char>,
    shift: int,
    ids: Ids<T>,
)
    requires
        ignores_id(ids),
    ensures
        ({
            let all = entry.all_traces();
            let changed = changed_ids(all, root_id, shift, Map::empty(), ids);
            let after = shifted(entry, root_id, shift, ids);
            &&& forall|i: int|
                0 <= i < all.len() && (is_moved_at(all, root_id, shift, ids, i) || (ids.trace)(
                    all[i],
                ) == all[i].id) ==> (ids.trace)(#[trigger] after.all_traces()[i])
                    == after.all_traces()[i].id
            &&& forall|i: int|
                0 <= i < entry.events.len() && (is_moved(
                    entry.events[i].parent_trace_id,
                    root_id,
                    changed,
                ) || (ids.event)(entry.events[i]) == entry.events[i].id) ==> (ids.event)(
                    #[trigger] after.events[i],
                ) == after.events[i].id
            &&& forall|i: int|
                0 <= i < entry.error_events.len() && (is_moved(
                    entry.error_events[i].parent_trace_id,
                    root_id,
                    changed,
                ) || (ids.event)(entry.error_events[i]) == entry.error_events[i].id) ==> (
                ids.event)(#[trigger] after.error_events[i]) == after.error_events[i].id
        }),
{
    lemma_shift_is_one_list(entry, root_id, shift, ids);
    let none = Map::<Seq<char>, Seq<char>>::empty();
    let all = entry.all_traces();
    let changed = changed_ids(all, root_id, shift, none, ids);
    let after = shifted(entry, root_id, shift, ids);
    assert forall|i: int|
        0 <= i < all.len() && (is_moved_at(all, root_id, shift, ids, i) || (ids.trace)(all[i])
            == all[i].id) implies (ids.trace)(#[trigger] after.all_traces()[i])
        == after.all_traces()[i].id by {
        lemma_moved_trace_id(
            all[i],
            root_id,
            shift,
            changed_ids(all.take(i), root_id, shift, none, ids),
            ids,
        );
    }
    assert forall|i: int|
        0 <= i < entry.events.len() && (is_moved(
            entry.events[i].parent_trace_id,
            root_id,
            changed,
        ) || (ids.event)(entry.events[i]) == entry.events[i].id) implies (ids.event)(
        #[trigger] after.events[i],
    ) == after.events[i].id by {
        lemma_moved_event_id(entry.events[i], root_id, shift, changed, ids);
    }
    assert forall|i: int|
        0 <= i < entry.error_events.len() && (is_moved(
            entry.error_events[i].parent_trace_id,
            root_id,
            changed,
        ) || (ids.event)(entry.error_events[i]) == entry.error_events[i].id) implies (ids.event)(
        #[trigger] after.error_events[i],
    ) == after.error_events[i].id by {
        lemma_moved_event_id(entry.error_events[i], root_id, shift, changed, ids);
    }
}

/// A frame that moves has the identifier that is computed for it.
proof fn lemma_moved_trace_id<T>(
    trace: TraceModel<T>,
    root_id: Seq<char>,
    shift: int,
    changed: Map<Seq<char>, Seq<char>>,
    ids: Ids<T>,
)
    requires
        ignores_id(ids),
        is_moved(trace.parent_trace_id, root_id, changed) || (ids.trace)(trace) == trace.id,
    ensures
        (ids.trace)(moved_trace(trace, root_id, shift, changed, ids)) == moved_trace(
            trace,
            root_id,
            shift,
            changed,
            ids,
        ).id,
{
    let moved = moved_trace(trace, root_id, shift, changed, ids);
    let placed = TraceModel { id: trace.id, ..moved };
    assert((ids.trace)(moved) == (ids.trace)(placed));
}

/// An event that moves has the identifier that is computed for it.
proof fn lemma_moved_event_id<T>(
    event: EventModel,
    root_id: Seq<char>,
    shift: int,
    changed: Map<Seq<char>, Seq<char>>,
    ids: Ids<T>,
)
    requires
        ignores_id(ids),
        is_moved(event.parent_trace_id, root_id, changed) || (ids.event)(event) == event.id,
    ensures
        (ids.event)(moved_event(event, root_id, shift, changed, ids)) == moved_event(
            event,
            root_id,
            shift,
            changed,
            ids,
        ).id,
{
    let moved = moved_event(event, root_id, shift, changed, ids);
    let placed = EventModel { id: event.id, ..moved };
    assert((ids.event)(moved) == (ids.event)(placed));
}

/// A table that maps what it holds to itself.
spec fn is_identity(changed: Map<Seq<char>, Seq<char>>) -> bool {
    forall|id: Seq<char>| #[trigger] changed.contains_key(id) ==> changed[id] == id
}

/// A shift by nothing changes no identifier of the first `count` frames.
proof fn lemma_shift_by_nothing<T>(
    traces: Seq<TraceModel<T>>,
    root_id: Seq<char>,
    ids: Ids<T>,
    count: int,
)
    requires
        0 <= count <= traces.len(),
        forall|i: int|
            0 <= i < traces.len() && #[trigger] is_moved_at(traces, root_id, 0, ids, i) ==> (
            ids.trace)(traces[i]) == traces[i].id,
    ensures
        is_identity(changed_ids(traces.take(count), root_id, 0, Map::empty(), ids)),
        forall|i: int|
            0 <= i < count ==> #[trigger] moved_traces(traces, root_id, 0, Map::empty(), ids)[i]
                == traces[i],
    decreases count,
{
    if count > 0 {
        let last = count - 1;
        lemma_shift_by_nothing(traces, root_id, ids, last);
        assert(traces.take(count).drop_last() =~= traces.take(last));
        assert(traces.take(count).last() == traces[last]);
        let trace = traces[last];
        if is_moved_at(traces, root_id, 0, ids, last) {
            assert((ids.trace)(trace) == trace.id);
            let changed = changed_ids(traces.take(last), root_id, 0, Map::empty(), ids);
            assert(moved_trace(trace, root_id, 0, changed, ids) == trace);
        }
    }
}

/// Where every record below the root has the identifier that is computed for it, a shift by nothing
/// changes nothing.
pub proof fn law_shift_by_zero<T>(entry: Entry<T>, root_id: Seq<char>, ids: Ids<T>)
    requires
        forall|i: int|
            0 <= i < entry.all_traces().len() && #[trigger] is_moved_at(
                entry.all_traces(),
                root_id,
                0,
                ids,
                i,
            ) ==> (ids.trace)(entry.all_traces()[i]) == entry.all_traces()[i].id,
        forall|i: int|
            0 <= i < entry.events.len() && is_moved(
                (#[trigger] entry.events[i]).parent_trace_id,
                root_id,
                changed_ids(entry.all_traces(), root_id, 0, Map::empty(), ids),
            ) ==> (ids.event)(entry.events[i]) == entry.events[i].id,
        forall|i: int|
            0 <= i < entry.error_events.len() && is_moved(
                (#[trigger] entry.error_events[i]).parent_trace_id,
                root_id,
                changed_ids(entry.all_traces(), root_id, 0, Map::empty(), ids),
            ) ==> (ids.event)(entry.error_events[i]) == entry.error_events[i].id,
    ensures
        shifted(entry, root_id, 0, ids) == entry,
{
    let all = entry.all_traces();
    let n = all.len() as int;
    let after = shifted(entry, root_id, 0, ids);
    lemma_shift_is_one_list(entry, root_id, 0, ids);
    lemma_shift_by_nothing(all, root_id, ids, n);
    assert(all.take(n) =~= all);
    assert(after.all_traces() =~= all);
    lemma_same_lists(after, entry);
    assert(after.events =~= entry.events);
    assert(after.error_events =~= entry.error_events);
}

/// Entries with the same frames in one list have the same lists of frames.
proof fn lemma_same_lists<T>(left: Entry<T>, right: Entry<T>)
    requires
        left.all_traces() == right.all_traces(),
        left.traces.len() == right.traces.len(),
    ensures
        left.traces == right.traces,
        left.error_traces == right.error_traces,
{
    assert(left.traces =~= left.all_traces().take(left.traces.len() as int));
    assert(right.traces =~= right.all_traces().take(right.traces.len() as int));
    assert(left.error_traces =~= left.all_traces().skip(left.traces.len() as int));
    assert(right.error_traces =~= right.all_traces().skip(right.traces.len() as int));
}

/// A shift does not turn a stranger into a parent: `parent` is the root, or one of the first
/// `count` frames, or no moved frame is given its identifier.
pub open spec fn keeps_strangers<T>(
    traces: Seq<TraceModel<T>>,
    root_id: Seq<char>,
    shift: int,
    ids: Ids<T>,
    count: int,
    parent: Seq<char>,
) -> bool {
    ||| parent == root_id
    ||| exists|k: int| 0 <= k < count && (#[trigger] traces[k]).id == parent
    ||| forall|k: int|
        0 <= k < traces.len() && #[trigger] is_moved_at(traces, root_id, shift, ids, k)
            ==> moved_traces(traces, root_id, shift, Map::empty(), ids)[k].id != parent
}

/// Which frames move does not depend on how far.
proof fn lemma_same_frames_move<T>(
    traces: Seq<TraceModel<T>>,
    root_id: Seq<char>,
    left: int,
    right: int,
    ids: Ids<T>,
)
    ensures
        changed_ids(traces, root_id, left, Map::empty(), ids).dom() == changed_ids(
            traces,
            root_id,
            right,
            Map::empty(),
            ids,
        ).dom(),
    decreases traces.len(),
{
    if traces.len() > 0 {
        let none = Map::<Seq<char>, Seq<char>>::empty();
        let front = traces.drop_last();
        lemma_same_frames_move(front, root_id, left, right, ids);
        let parent = traces.last().parent_trace_id;
        let before_left = changed_ids(front, root_id, left, none, ids);
        let before_right = changed_ids(front, root_id, right, none, ids);
        assert(before_left.dom().contains(parent) == before_right.dom().contains(parent));
        assert(changed_ids(traces, root_id, left, none, ids).dom() =~= changed_ids(
            traces,
            root_id,
            right,
            none,
            ids,
        ).dom());
    }
}

/// The table of the first `count` frames holds the old identifiers of those that move.
proof fn lemma_changed_keys<T>(
    traces: Seq<TraceModel<T>>,
    root_id: Seq<char>,
    shift: int,
    ids: Ids<T>,
    count: int,
    id: Seq<char>,
)
    requires
        0 <= count <= traces.len(),
    ensures
        changed_ids(traces.take(count), root_id, shift, Map::empty(), ids).contains_key(id)
            <==> exists|k: int|
            0 <= k < count && #[trigger] is_moved_at(traces, root_id, shift, ids, k)
                && traces[k].id == id,
    decreases count,
{
    if count > 0 {
        let last = count - 1;
        lemma_changed_keys(traces, root_id, shift, ids, last, id);
        assert(traces.take(count).drop_last() =~= traces.take(last));
        assert(traces.take(count).last() == traces[last]);
        if is_moved_at(traces, root_id, shift, ids, last) && traces[last].id == id {
            assert(changed_ids(
                traces.take(count),
                root_id,
                shift,
                Map::empty(),
                ids,
            ).contains_key(id));
        }
    }
}

/// The frame at `i` moves in the second shift as in the first, and the two shifts make one.
spec fn shifts_agree_at<T>(
    traces: Seq<TraceModel<T>>,
    root_id: Seq<char>,
    first: int,
    second: int,
    ids: Ids<T>,
    i: int,
) -> bool {
    let none = Map::<Seq<char>, Seq<char>>::empty();
    let once = moved_traces(traces, root_id, first, none, ids);
    let twice = moved_traces(once, root_id, second, none, ids);
    let sum = moved_traces(traces, root_id, first + second, none, ids);
    &&& is_moved_at(once, root_id, second, ids, i) == is_moved_at(traces, root_id, first, ids, i)
    &&& twice[i] == sum[i]
}

/// Two shifts make one on the frames before `count`.
spec fn shifts_agree<T>(
    traces: Seq<TraceModel<T>>,
    root_id: Seq<char>,
    first: int,
    second: int,
    ids: Ids<T>,
    count: int,
) -> bool {
    forall|i: int|
        0 <= i < count ==> #[trigger] shifts_agree_at(traces, root_id, first, second, ids, i)
}

/// What becomes of a parent other than the root in two shifts, where they agree on the frames
/// before `count`.
proof fn lemma_parent_twice<T>(
    traces: Seq<TraceModel<T>>,
    root_id: Seq<char>,
    first: int,
    second: int,
    ids: Ids<T>,
    count: int,
    parent: Seq<char>,
)
    requires
        0 <= count <= traces.len(),
        distinct_ids(traces),
        distinct_ids(moved_traces(traces, root_id, first, Map::empty(), ids)),
        avoids_root(traces, root_id, first, ids),
        keeps_strangers(traces, root_id, first, ids, count, parent),
        shifts_agree(traces, root_id, first, second, ids, count),
        parent != root_id,
    ensures
        ({
            let none = Map::<Seq<char>, Seq<char>>::empty();
            let once = moved_traces(traces, root_id, first, none, ids);
            let one = changed_ids(traces.take(count), root_id, first, none, ids);
            let two = changed_ids(once.take(count), root_id, second, none, ids);
            let sum = changed_ids(traces.take(count), root_id, first + second, none, ids);
            &&& one.contains_key(parent) == sum.contains_key(parent)
            &&& one.contains_key(parent) ==> {
                &&& one[parent] != root_id
                &&& two.contains_key(one[parent])
                &&& two[one[parent]] == sum[parent]
            }
            &&& !one.contains_key(parent) ==> !two.contains_key(parent)
        }),
{
    let none = Map::<Seq<char>, Seq<char>>::empty();
    let once = moved_traces(traces, root_id, first, none, ids);
    let twice = moved_traces(once, root_id, second, none, ids);
    let one = changed_ids(traces.take(count), root_id, first, none, ids);
    let two = changed_ids(once.take(count), root_id, second, none, ids);
    let sum = changed_ids(traces.take(count), root_id, first + second, none, ids);
    lemma_same_frames_move(traces.take(count), root_id, first, first + second, ids);
    assert(one.dom().contains(parent) == sum.dom().contains(parent));
    lemma_changed_keys(traces, root_id, first, ids, count, parent);
    if one.contains_key(parent) {
        let k = choose|k: int|
            0 <= k < count && #[trigger] is_moved_at(traces, root_id, first, ids, k)
                && traces[k].id == parent;
        lemma_changed_before(traces, root_id, first, ids, k, count);
        lemma_changed_before(traces, root_id, first + second, ids, k, count);
        assert(one[parent] == once[k].id);
        assert(shifts_agree_at(traces, root_id, first, second, ids, k));
        assert(sum[parent] == twice[k].id);
        assert(is_moved_at(once, root_id, second, ids, k));
        lemma_changed_keys(once, root_id, second, ids, count, once[k].id);
        assert(two.contains_key(once[k].id));
        lemma_changed_before(once, root_id, second, ids, k, count);
    } else {
        lemma_changed_keys(once, root_id, second, ids, count, parent);
        if two.contains_key(parent) {
            let k = choose|k: int|
                0 <= k < count && #[trigger] is_moved_at(once, root_id, second, ids, k)
                    && once[k].id == parent;
            assert(shifts_agree_at(traces, root_id, first, second, ids, k));
            assert(is_moved_at(traces, root_id, first, ids, k));
            assert(exists|m: int| 0 <= m < count && (#[trigger] traces[m]).id == parent);
            let m = choose|m: int| 0 <= m < count && (#[trigger] traces[m]).id == parent;
            assert(!is_moved_at(traces, root_id, first, ids, m));
            assert(once[m] == traces[m]);
            assert(once[k].id == once[m].id);
            assert(k == m);
        }
    }
}

/// Two shifts agree on the frames before `count`.
proof fn lemma_shifts_agree<T>(
    traces: Seq<TraceModel<T>>,
    root_id: Seq<char>,
    first: int,
    second: int,
    ids: Ids<T>,
    count: int,
)
    requires
        0 <= count <= traces.len(),
        ignores_id(ids),
        distinct_ids(traces),
        distinct_ids(moved_traces(traces, root_id, first, Map::empty(), ids)),
        avoids_root(traces, root_id, first, ids),
        forall|i: int|
            0 <= i < traces.len() ==> keeps_strangers(
                traces,
                root_id,
                first,
                ids,
                i,
                (#[trigger] traces[i]).parent_trace_id,
            ),
    ensures
        shifts_agree(traces, root_id, first, second, ids, count),
    decreases count,
{
    if count > 0 {
        let i = count - 1;
        lemma_shifts_agree(traces, root_id, first, second, ids, i);
        let none = Map::<Seq<char>, Seq<char>>::empty();
        let once = moved_traces(traces, root_id, first, none, ids);
        let one = changed_ids(traces.take(i), root_id, first, none, ids);
        let two = changed_ids(once.take(i), root_id, second, none, ids);
        let sum = changed_ids(traces.take(i), root_id, first + second, none, ids);
        let trace = traces[i];
        if trace.parent_trace_id != root_id {
            lemma_parent_twice(
                traces,
                root_id,
                first,
                second,
                ids,
                i,
                trace.parent_trace_id,
            );
        }
        let left = moved_trace(once[i], root_id, second, two, ids);
        let right = moved_trace(trace, root_id, first + second, sum, ids);
        let placed_left = TraceModel { id: once[i].id, ..left };
        let placed_right = TraceModel { id: trace.id, ..right };
        assert(placed_left == (TraceModel { id: placed_left.id, ..placed_right }));
        assert((ids.trace)(placed_left) == (ids.trace)(placed_right));
        assert(left == right);
        assert(shifts_agree_at(traces, root_id, first, second, ids, i));
    }
}

/// Two shifts move an event as one does.
proof fn lemma_event_twice<T>(
    traces: Seq<TraceModel<T>>,
    root_id: Seq<char>,
    first: int,
    second: int,
    ids: Ids<T>,
    event: EventModel,
)
    requires
        ignores_id(ids),
        distinct_ids(traces),
        distinct_ids(moved_traces(traces, root_id, first, Map::empty(), ids)),
        avoids_root(traces, root_id, first, ids),
        keeps_strangers(
            traces,
            root_id,
            first,
            ids,
            traces.len() as int,
            event.parent_trace_id,
        ),
        shifts_agree(traces, root_id, first, second, ids, traces.len() as int),
    ensures
        ({
            let none = Map::<Seq<char>, Seq<char>>::empty();
            let once = moved_traces(traces, root_id, first, none, ids);
            let one = changed_ids(traces, root_id, first, none, ids);
            let two = changed_ids(once, root_id, second, none, ids);
            let sum = changed_ids(traces, root_id, first + second, none, ids);
            moved_event(
                moved_event(event, root_id, first, one, ids),
                root_id,
                second,
                two,
                ids,
            ) == moved_event(event, root_id, first + second, sum, ids)
        }),
{
    let n = traces.len() as int;
    let none = Map::<Seq<char>, Seq<char>>::empty();
    let once = moved_traces(traces, root_id, first, none, ids);
    assert(traces.take(n) =~= traces);
    assert(once.take(n) =~= once);
    let one = changed_ids(traces, root_id, first, none, ids);
    let two = changed_ids(once, root_id, second, none, ids);
    let sum = changed_ids(traces, root_id, first + second, none, ids);
    if event.parent_trace_id != root_id {
        lemma_parent_twice(traces, root_id, first, second, ids, n, event.parent_trace_id);
    }
    let middle = moved_event(event, root_id, first, one, ids);
    let left = moved_event(middle, root_id, second, two, ids);
    let right = moved_event(event, root_id, first + second, sum, ids);
    let placed_left = EventModel { id: middle.id, ..left };
    let placed_right = EventModel { id: event.id, ..right };
    assert(placed_left == (EventModel { id: placed_left.id, ..placed_right }));
    assert((ids.event)(placed_left) == (ids.event)(placed_right));
}

/// Two shifts make one by their sum.
///
/// The identifiers of the frames are distinct before and after the first shift, none of them
/// becomes the root's, and none becomes that of a parent that is no frame before the record.
pub proof fn law_shifts_add<T>(
    entry: Entry<T>,
    root_id: Seq<char>,
    first: int,
    second: int,
    ids: Ids<T>,
)
    requires
        ignores_id(ids),
        distinct_ids(entry.all_traces()),
        distinct_ids(shifted(entry, root_id, first, ids).all_traces()),
        avoids_root(entry.all_traces(), root_id, first, ids),
        forall|i: int|
            0 <= i < entry.all_traces().len() ==> keeps_strangers(
                entry.all_traces(),
                root_id,
                first,
                ids,
                i,
                (#[trigger] entry.all_traces()[i]).parent_trace_id,
            ),
        forall|i: int|
            0 <= i < entry.events.len() ==> keeps_strangers(
                entry.all_traces(),
                root_id,
                first,
                ids,
                entry.all_traces().len() as int,
                (#[trigger] entry.events[i]).parent_trace_id,
            ),
        forall|i: int|
            0 <= i < entry.error_events.len() ==> keeps_strangers(
                entry.all_traces(),
                root_id,
                first,
                ids,
                entry.all_traces().len() as int,
                (#[trigger] entry.error_events[i]).parent_trace_id,
            ),
    ensures
        shifted(shifted(entry, root_id, first, ids), root_id, second, ids) == shifted(
            entry,
            root_id,
            first + second,
            ids,
        ),
{
    let all = entry.all_traces();
    let once = shifted(entry, root_id, first, ids);
    let twice = shifted(once, root_id, second, ids);
    let sum = shifted(entry, root_id, first + second, ids);
    lemma_shift_is_one_list(entry, root_id, first, ids);
    lemma_shift_is_one_list(once, root_id, second, ids);
    lemma_shift_is_one_list(entry, root_id, first + second, ids);
    lemma_shifts_agree(all, root_id, first, second, ids, all.len() as int);
    assert forall|i: int| 0 <= i < all.len() implies #[trigger] twice.all_traces()[i]
        == sum.all_traces()[i] by {
        assert(shifts_agree_at(all, root_id, first, second, ids, i));
    }
    assert(twice.all_traces() =~= sum.all_traces());
    lemma_same_lists(twice, sum);
    assert forall|i: int| 0 <= i < entry.events.len() implies #[trigger] twice.events[i]
        == sum.events[i] by {
        lemma_event_twice(all, root_id, first, second, ids, entry.events[i]);
    }
    assert(twice.events =~= sum.events);
    assert forall|i: int| 0 <= i < entry.error_events.len() implies #[trigger] twice.error_events[i]
        == sum.error_events[i] by {
        lemma_event_twice(all, root_id, first, second, ids, entry.error_events[i]);
    }
    assert(twice.error_events =~= sum.error_events);
}

} // verus!
