//! Moving the children of a root frame, and giving new identifiers to everything below them.
//!
//! The identifier of a record depends on its parent's identifier and on its position there, so a
//! shift of the root's children changes the identifiers of whole subtrees.

use vstd::hash_map::StringHashMap;
use vstd::prelude::*;

use crate::record::{
    computes_ids, entry_model, event_models, is_id_scheme, trace_models, DebankEvent, DebankTrace,
    Entry, EventModel, Ids, TraceEntry, TraceModel,
};

verus! {

/// A record with this parent moves: it is a child of the root, or its parent has a new identifier.
pub open spec fn is_moved(
    parent_trace_id: Seq<char>,
    root_id: Seq<char>,
    changed: Map<Seq<char>, Seq<char>>,
) -> bool {
    parent_trace_id == root_id || changed.contains_key(parent_trace_id)
}

/// The frame after the move. `changed` maps the old identifiers of frames before it to new ones.
pub open spec fn moved_trace<T>(
    trace: TraceModel<T>,
    root_id: Seq<char>,
    shift: int,
    changed: Map<Seq<char>, Seq<char>>,
    ids: Ids<T>,
) -> TraceModel<T> {
    if trace.parent_trace_id == root_id {
        let placed = TraceModel {
            pos_in_parent_trace: trace.pos_in_parent_trace + shift,
            ..trace
        };
        TraceModel { id: (ids.trace)(placed), ..placed }
    } else if changed.contains_key(trace.parent_trace_id) {
        let placed = TraceModel { parent_trace_id: changed[trace.parent_trace_id], ..trace };
        TraceModel { id: (ids.trace)(placed), ..placed }
    } else {
        trace
    }
}

/// The event after the move.
pub open spec fn moved_event<T>(
    event: EventModel,
    root_id: Seq<char>,
    shift: int,
    changed: Map<Seq<char>, Seq<char>>,
    ids: Ids<T>,
) -> EventModel {
    if event.parent_trace_id == root_id {
        let placed = EventModel {
            pos_in_parent_trace: event.pos_in_parent_trace + shift,
            ..event
        };
        EventModel { id: (ids.event)(placed), ..placed }
    } else if changed.contains_key(event.parent_trace_id) {
        let placed = EventModel { parent_trace_id: changed[event.parent_trace_id], ..event };
        EventModel { id: (ids.event)(placed), ..placed }
    } else {
        event
    }
}

/// What became of the identifiers of the frames, on top of `changed`. Where an old identifier
/// occurs twice, the later frame counts.
pub open spec fn changed_ids<T>(
    traces: Seq<TraceModel<T>>,
    root_id: Seq<char>,
    shift: int,
    changed: Map<Seq<char>, Seq<char>>,
    ids: Ids<T>,
) -> Map<Seq<char>, Seq<char>>
    decreases traces.len(),
{
    if traces.len() == 0 {
        changed
    } else {
        let before = changed_ids(traces.drop_last(), root_id, shift, changed, ids);
        let trace = traces.last();
        if is_moved(trace.parent_trace_id, root_id, before) {
            before.insert(trace.id, moved_trace(trace, root_id, shift, before, ids).id)
        } else {
            before
        }
    }
}

/// The frames after the move: each by what became of the identifiers of those before it.
pub open spec fn moved_traces<T>(
    traces: Seq<TraceModel<T>>,
    root_id: Seq<char>,
    shift: int,
    changed: Map<Seq<char>, Seq<char>>,
    ids: Ids<T>,
) -> Seq<TraceModel<T>> {
    Seq::new(
        traces.len(),
        |i: int|
            moved_trace(
                traces[i],
                root_id,
                shift,
                changed_ids(traces.take(i), root_id, shift, changed, ids),
                ids,
            ),
    )
}

/// The events after the move.
pub open spec fn moved_events<T>(
    events: Seq<EventModel>,
    root_id: Seq<char>,
    shift: int,
    changed: Map<Seq<char>, Seq<char>>,
    ids: Ids<T>,
) -> Seq<EventModel> {
    Seq::new(events.len(), |i: int| moved_event(events[i], root_id, shift, changed, ids))
}

/// The entry with the children of `root_id` moved by `shift` positions.
pub open spec fn shifted<T>(
    entry: Entry<T>,
    root_id: Seq<char>,
    shift: int,
    ids: Ids<T>,
) -> Entry<T> {
    let none = Map::<Seq<char>, Seq<char>>::empty();
    let kept = changed_ids(entry.traces, root_id, shift, none, ids);
    let all = changed_ids(entry.error_traces, root_id, shift, kept, ids);
    Entry {
        traces: moved_traces(entry.traces, root_id, shift, none, ids),
        error_traces: moved_traces(entry.error_traces, root_id, shift, kept, ids),
        events: moved_events(entry.events, root_id, shift, all, ids),
        error_events: moved_events(entry.error_events, root_id, shift, all, ids),
    }
}

/// The positions of the root's children among the frames leave room for the shift.
pub open spec fn traces_fit<T>(
    traces: Seq<TraceModel<T>>,
    root_id: Seq<char>,
    shift: int,
) -> bool {
    forall|i: int|
        0 <= i < traces.len() && (#[trigger] traces[i]).parent_trace_id == root_id
            ==> traces[i].pos_in_parent_trace + shift <= usize::MAX
}

/// The positions of the root's children among the events leave room for the shift.
pub open spec fn events_fit(events: Seq<EventModel>, root_id: Seq<char>, shift: int) -> bool {
    forall|i: int|
        0 <= i < events.len() && (#[trigger] events[i]).parent_trace_id == root_id
            ==> events[i].pos_in_parent_trace + shift <= usize::MAX
}

/// The positions of all children of the root leave room for the shift.
pub open spec fn shift_fits<T>(entry: Entry<T>, root_id: Seq<char>, shift: int) -> bool {
    &&& traces_fit(entry.traces, root_id, shift)
    &&& traces_fit(entry.error_traces, root_id, shift)
    &&& events_fit(entry.events, root_id, shift)
    &&& events_fit(entry.error_events, root_id, shift)
}

/// The model of a table of identifiers.
pub open spec fn table_model(table: Map<Seq<char>, String>) -> Map<Seq<char>, Seq<char>> {
    table.map_values(|id: String| id@)
}

/// Moves the frames in order and records their new identifiers in `changed`.
fn shift_traces<T, F, G>(
    traces: &mut Vec<DebankTrace<T>>,
    root_id: &String,
    shift: usize,
    changed: &mut StringHashMap<String>,
    trace_id: &F,
    event_id: &G,
) where F: Fn(&DebankTrace<T>) -> String, G: Fn(&DebankEvent) -> String
    requires
        is_id_scheme(trace_id, event_id),
        traces_fit(trace_models(old(traces)@), root_id@, shift as int),
    ensures
        forall|ids: Ids<T>| #[trigger]
            computes_ids(trace_id, event_id, ids) ==> {
                &&& trace_models(final(traces)@) == moved_traces(
                    trace_models(old(traces)@),
                    root_id@,
                    shift as int,
                    table_model(old(changed)@),
                    ids,
                )
                &&& table_model(final(changed)@) == changed_ids(
                    trace_models(old(traces)@),
                    root_id@,
                    shift as int,
                    table_model(old(changed)@),
                    ids,
                )
            },
{
    let ghost before = trace_models(traces@);
    let ghost start = table_model(changed@);
    assert(before.take(0) =~= Seq::empty());
    let mut i: usize = 0;
    while i < traces.len()
        invariant
            is_id_scheme(trace_id, event_id),
            i <= traces@.len(),
            traces@.len() == before.len(),
            traces_fit(before, root_id@, shift as int),
            forall|j: int| i <= j < before.len() ==> (#[trigger] traces@[j])@ == before[j],
            forall|ids: Ids<T>| #[trigger]
                computes_ids(trace_id, event_id, ids) ==> {
                    &&& table_model(changed@) == changed_ids(
                        before.take(i as int),
                        root_id@,
                        shift as int,
                        start,
                        ids,
                    )
                    &&& forall|j: int| 0 <= j < i ==> (#[trigger] traces@[j])@ == moved_traces(
                        before,
                        root_id@,
                        shift as int,
                        start,
                        ids,
                    )[j]
                },
        decreases traces@.len() - i,
    {
        let ghost earlier = traces@;
        let ghost table = changed@;
        assert(traces@[i as int]@ == before[i as int]);
        let old_id = traces[i].id.clone();
        let mut moved: bool = false;
        if traces[i].parent_trace_id == *root_id {
            let position: usize = traces[i].pos_in_parent_trace + shift;
            traces[i].pos_in_parent_trace = position;
            moved = true;
        } else {
            match changed.get(traces[i].parent_trace_id.as_str()) {
                Some(parent_id) => {
                    let parent_id = parent_id.clone();
                    traces[i].parent_trace_id = parent_id;
                    moved = true;
                },
                None => {},
            }
        }
        if moved {
            let id = trace_id(&traces[i]);
            let kept = id.clone();
            traces[i].id = id;
            changed.insert(old_id, kept);
        }
        proof {
            assert(before.take(i + 1).drop_last() =~= before.take(i as int));
            assert(before.take(i + 1).last() == before[i as int]);
            assert forall|ids: Ids<T>| #[trigger] computes_ids(trace_id, event_id, ids) implies {
                &&& table_model(changed@) == changed_ids(
                    before.take(i + 1),
                    root_id@,
                    shift as int,
                    start,
                    ids,
                )
                &&& forall|j: int| 0 <= j < i + 1 ==> (#[trigger] traces@[j])@ == moved_traces(
                    before,
                    root_id@,
                    shift as int,
                    start,
                    ids,
                )[j]
            } by {
                let known = changed_ids(before.take(i as int), root_id@, shift as int, start, ids);
                assert(table_model(table) == known);
                let next = moved_trace(before[i as int], root_id@, shift as int, known, ids);
                assert(traces@[i as int]@ == next);
                assert(table_model(changed@) =~= changed_ids(
                    before.take(i + 1),
                    root_id@,
                    shift as int,
                    start,
                    ids,
                ));
                assert forall|j: int| 0 <= j < i + 1 implies (#[trigger] traces@[j])@
                    == moved_traces(before, root_id@, shift as int, start, ids)[j] by {
                    if j < i {
                        assert(traces@[j] == earlier[j]);
                    }
                }
            }
        }
        i += 1;
    }
    proof {
        assert(before.take(before.len() as int) =~= before);
        assert forall|ids: Ids<T>| #[trigger] computes_ids(trace_id, event_id, ids) implies
            trace_models(traces@) == moved_traces(before, root_id@, shift as int, start, ids) by {
            assert(trace_models(traces@) =~= moved_traces(
                before,
                root_id@,
                shift as int,
                start,
                ids,
            ));
        }
    }
}


/// Moves the events.
fn shift_events<T, F, G>(
    events: &mut Vec<DebankEvent>,
    root_id: &String,
    shift: usize,
    changed: &StringHashMap<String>,
    trace_id: &F,
    event_id: &G,
) where F: Fn(&DebankTrace<T>) -> String, G: Fn(&DebankEvent) -> String
    requires
        is_id_scheme(trace_id, event_id),
        events_fit(event_models(old(events)@), root_id@, shift as int),
    ensures
        forall|ids: Ids<T>| #[trigger]
            computes_ids(trace_id, event_id, ids) ==> event_models(final(events)@) == moved_events(
                event_models(old(events)@),
                root_id@,
                shift as int,
                table_model(changed@),
                ids,
            ),
{
    let ghost before = event_models(events@);
    let ghost table = table_model(changed@);
    let mut i: usize = 0;
    while i < events.len()
        invariant
            is_id_scheme(trace_id, event_id),
            i <= events@.len(),
            events@.len() == before.len(),
            table == table_model(changed@),
            events_fit(before, root_id@, shift as int),
            forall|j: int| i <= j < before.len() ==> (#[trigger] events@[j])@ == before[j],
            forall|ids: Ids<T>| #[trigger]
                computes_ids(trace_id, event_id, ids) ==> forall|j: int|
                    0 <= j < i ==> (#[trigger] events@[j])@ == moved_event(
                        before[j],
                        root_id@,
                        shift as int,
                        table,
                        ids,
                    ),
        decreases events@.len() - i,
    {
        assert(events@[i as int]@ == before[i as int]);
        let mut moved: bool = false;
        if events[i].parent_trace_id == *root_id {
            let position: usize = events[i].pos_in_parent_trace + shift;
            events[i].pos_in_parent_trace = position;
            moved = true;
        } else {
            match changed.get(events[i].parent_trace_id.as_str()) {
                Some(parent_id) => {
                    events[i].parent_trace_id = parent_id.clone();
                    moved = true;
                },
                None => {},
            }
        }
        if moved {
            let id = event_id(&events[i]);
            events[i].id = id;
        }
        i += 1;
    }
    proof {
        assert forall|ids: Ids<T>| #[trigger] computes_ids(trace_id, event_id, ids) implies
            event_models(events@) == moved_events(before, root_id@, shift as int, table, ids) by {
            assert(event_models(events@) =~= moved_events(
                before,
                root_id@,
                shift as int,
                table,
                ids,
            ));
        }
    }
}

/// Whether the positions of the root's children among the frames leave room for the shift.
fn do_traces_fit<T>(traces: &Vec<DebankTrace<T>>, root_id: &String, shift: usize) -> (fit: bool)
    ensures
        fit == traces_fit(trace_models(traces@), root_id@, shift as int),
{
    let ghost models = trace_models(traces@);
    let mut i: usize = 0;
    while i < traces.len()
        invariant
            i <= traces@.len(),
            models == trace_models(traces@),
            forall|j: int|
                0 <= j < i && (#[trigger] models[j]).parent_trace_id == root_id@
                    ==> models[j].pos_in_parent_trace + shift <= usize::MAX,
        decreases traces@.len() - i,
    {
        assert(models[i as int] == traces@[i as int]@);
        if traces[i].parent_trace_id == *root_id && traces[i].pos_in_parent_trace > usize::MAX
            - shift {
            return false;
        }
        i += 1;
    }
    true
}

/// Whether the positions of the root's children among the events leave room for the shift.
fn do_events_fit(events: &Vec<DebankEvent>, root_id: &String, shift: usize) -> (fit: bool)
    ensures
        fit == events_fit(event_models(events@), root_id@, shift as int),
{
    let ghost models = event_models(events@);
    let mut i: usize = 0;
    while i < events.len()
        invariant
            i <= events@.len(),
            models == event_models(events@),
            forall|j: int|
                0 <= j < i && (#[trigger] models[j]).parent_trace_id == root_id@
                    ==> models[j].pos_in_parent_trace + shift <= usize::MAX,
        decreases events@.len() - i,
    {
        assert(models[i as int] == events@[i as int]@);
        if events[i].parent_trace_id == *root_id && events[i].pos_in_parent_trace > usize::MAX
            - shift {
            return false;
        }
        i += 1;
    }
    true
}

/// Whether the positions of all children of the root leave room for the shift.
pub fn does_shift_fit<T>(entry: &TraceEntry<T>, root_id: &String, shift: usize) -> (fit: bool)
    ensures
        fit == shift_fits(entry_model(*entry), root_id@, shift as int),
{
    do_traces_fit(&entry.0, root_id, shift) && do_traces_fit(&entry.1, root_id, shift)
        && do_events_fit(&entry.2, root_id, shift) && do_events_fit(&entry.3, root_id, shift)
}

/// Moves every child of the root by `shift` positions, and gives new identifiers to the children
/// and to everything below them.
///
/// A frame below a child is found through its parent, so a parent must stand before its children.
pub fn shift_root_children<T, F, G>(
    entry: &mut TraceEntry<T>,
    root_id: &str,
    shift: usize,
    trace_id: &F,
    event_id: &G,
) where F: Fn(&DebankTrace<T>) -> String, G: Fn(&DebankEvent) -> String
    requires
        is_id_scheme(trace_id, event_id),
        shift_fits(entry_model(*old(entry)), root_id@, shift as int),
    ensures
        forall|ids: Ids<T>| #[trigger]
            computes_ids(trace_id, event_id, ids) ==> entry_model(*final(entry)) == shifted(
                entry_model(*old(entry)),
                root_id@,
                shift as int,
                ids,
            ),
{
    let root = root_id.to_string();
    let mut changed: StringHashMap<String> = StringHashMap::new();
    assert(table_model(changed@) =~= Map::<Seq<char>, Seq<char>>::empty());
    shift_traces(&mut entry.0, &root, shift, &mut changed, trace_id, event_id);
    shift_traces(&mut entry.1, &root, shift, &mut changed, trace_id, event_id);
    shift_events(&mut entry.2, &root, shift, &changed, trace_id, event_id);
    shift_events(&mut entry.3, &root, shift, &changed, trace_id, event_id);
}

} // verus!
