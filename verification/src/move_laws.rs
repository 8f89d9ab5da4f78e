//! Which records a shift of the root's children reaches, and what becomes of each.

use vstd::prelude::*;

use crate::record::{computes_ids, entry_model, DebankEvent, DebankTrace, Entry, EventModel, Ids};
use crate::record::{TraceEntry, TraceModel};
use crate::rekey::{changed_ids, moved_traces, shift_root_children, shifted};
use crate::subtree_laws::lemma_shift_is_one_list;

verus! {

/// The frame at `i` stands below the root: it is a child of the root, or of a frame before it that
/// stands below the root.
pub open spec fn is_below<T>(traces: Seq<TraceModel<T>>, root_id: Seq<char>, i: int) -> bool
    decreases i,
{
    traces[i].parent_trace_id == root_id || exists|k: int|
        0 <= k < i && (#[trigger] traces[k]).id == traces[i].parent_trace_id && is_below(
            traces,
            root_id,
            k,
        )
}

/// One of the first `count` frames has the identifier `parent` and stands below the root.
pub open spec fn has_parent_below<T>(
    traces: Seq<TraceModel<T>>,
    root_id: Seq<char>,
    count: int,
    parent: Seq<char>,
) -> bool {
    exists|k: int|
        0 <= k < count && (#[trigger] traces[k]).id == parent && is_below(traces, root_id, k)
}

/// Of the first `count` frames, the one at `k` is the last that has the identifier `parent` and
/// stands below the root.
pub open spec fn is_last_parent<T>(
    traces: Seq<TraceModel<T>>,
    root_id: Seq<char>,
    count: int,
    parent: Seq<char>,
    k: int,
) -> bool {
    &&& 0 <= k < count
    &&& traces[k].id == parent
    &&& is_below(traces, root_id, k)
    &&& forall|m: int|
        k < m < count && (#[trigger] traces[m]).id == parent ==> !is_below(traces, root_id, m)
}

/// What becomes of the parent and the position of a record in a shift. `traces` are the frames
/// before the shift, `moved` those after it; the record's parent is looked for among the first
/// `count`.
///
/// A child of the root moves by `shift` positions. Any other record keeps its position. Where its
/// parent stands below the root, it follows the parent to its new identifier.
pub open spec fn link_follows<T>(
    before: (Seq<char>, int),
    after: (Seq<char>, int),
    traces: Seq<TraceModel<T>>,
    moved: Seq<TraceModel<T>>,
    root_id: Seq<char>,
    shift: int,
    count: int,
) -> bool {
    if before.0 == root_id {
        after == (root_id, before.1 + shift)
    } else if has_parent_below(traces, root_id, count, before.0) {
        &&& after.1 == before.1
        &&& exists|k: int| #[trigger]
            is_last_parent(traces, root_id, count, before.0, k) && after.0 == moved[k].id
    } else {
        after == before
    }
}

/// What becomes of a frame in a shift: its link follows, its identifier is computed anew where it
/// stands below the root, and nothing else of it changes.
pub open spec fn frame_follows<T>(
    before: TraceModel<T>,
    after: TraceModel<T>,
    traces: Seq<TraceModel<T>>,
    moved: Seq<TraceModel<T>>,
    root_id: Seq<char>,
    shift: int,
    count: int,
    ids: Ids<T>,
) -> bool {
    &&& link_follows(
        (before.parent_trace_id, before.pos_in_parent_trace),
        (after.parent_trace_id, after.pos_in_parent_trace),
        traces,
        moved,
        root_id,
        shift,
        count,
    )
    &&& after.id == if before.parent_trace_id == root_id || has_parent_below(
        traces,
        root_id,
        count,
        before.parent_trace_id,
    ) {
        (ids.trace)(TraceModel { id: before.id, ..after })
    } else {
        before.id
    }
    &&& after.tx_id == before.tx_id
    &&& after.trace_address == before.trace_address
    &&& after.storage_change == before.storage_change
    &&& after.rest == before.rest
}

/// What becomes of an event in a shift: its link follows, its identifier is computed anew where it
/// stands below the root, and nothing else of it changes.
pub open spec fn event_follows<T>(
    before: EventModel,
    after: EventModel,
    traces: Seq<TraceModel<T>>,
    moved: Seq<TraceModel<T>>,
    root_id: Seq<char>,
    shift: int,
    ids: Ids<T>,
) -> bool {
    &&& link_follows(
        (before.parent_trace_id, before.pos_in_parent_trace),
        (after.parent_trace_id, after.pos_in_parent_trace),
        traces,
        moved,
        root_id,
        shift,
        traces.len() as int,
    )
    &&& after.id == if before.parent_trace_id == root_id || has_parent_below(
        traces,
        root_id,
        traces.len() as int,
        before.parent_trace_id,
    ) {
        (ids.event)(EventModel { id: before.id, ..after })
    } else {
        before.id
    }
    &&& after.contract_id == before.contract_id
    &&& after.selector == before.selector
    &&& after.topics == before.topics
    &&& after.data == before.data
    &&& after.idx == before.idx
}

/// Where there is such a parent, there is a last one.
proof fn lemma_last_parent<T>(
    traces: Seq<TraceModel<T>>,
    root_id: Seq<char>,
    count: int,
    parent: Seq<char>,
)
    requires
        0 <= count <= traces.len(),
        has_parent_below(traces, root_id, count, parent),
    ensures
        exists|k: int| is_last_parent(traces, root_id, count, parent, k),
    decreases count,
{
    let last = count - 1;
    if traces[last].id == parent && is_below(traces, root_id, last) {
        assert(is_last_parent(traces, root_id, count, parent, last));
    } else {
        lemma_last_parent(traces, root_id, last, parent);
        let k = choose|k: int| is_last_parent(traces, root_id, last, parent, k);
        assert(is_last_parent(traces, root_id, count, parent, k));
    }
}

/// The table holds the identifiers of the frames below the root; each leads to the new identifier
/// of the last frame that had it.
proof fn lemma_table_of_frames_below<T>(
    traces: Seq<TraceModel<T>>,
    root_id: Seq<char>,
    shift: int,
    ids: Ids<T>,
    count: int,
    id: Seq<char>,
)
    requires
        0 <= count <= traces.len(),
    ensures
        ({
            let changed = changed_ids(traces.take(count), root_id, shift, Map::empty(), ids);
            let moved = moved_traces(traces, root_id, shift, Map::empty(), ids);
            &&& changed.contains_key(id) == has_parent_below(traces, root_id, count, id)
            &&& forall|k: int| #[trigger]
                is_last_parent(traces, root_id, count, id, k) ==> changed[id] == moved[k].id
        }),
    decreases count,
{
    if count > 0 {
        let last = count - 1;
        let none = Map::<Seq<char>, Seq<char>>::empty();
        let before = changed_ids(traces.take(last), root_id, shift, none, ids);
        let changed = changed_ids(traces.take(count), root_id, shift, none, ids);
        let moved = moved_traces(traces, root_id, shift, none, ids);
        lemma_table_of_frames_below(traces, root_id, shift, ids, last, id);
        lemma_table_of_frames_below(
            traces,
            root_id,
            shift,
            ids,
            last,
            traces[last].parent_trace_id,
        );
        assert(traces.take(count).drop_last() =~= traces.take(last));
        assert(traces.take(count).last() == traces[last]);
        let moves = traces[last].parent_trace_id == root_id || before.contains_key(
            traces[last].parent_trace_id,
        );
        assert(moves == is_below(traces, root_id, last));
        if moves && traces[last].id == id {
            assert(has_parent_below(traces, root_id, count, id));
            assert forall|k: int| #[trigger]
                is_last_parent(traces, root_id, count, id, k) implies changed[id] == moved[k].id by {
                assert(k == last);
            }
        } else {
            assert(changed.contains_key(id) == before.contains_key(id));
            assert(has_parent_below(traces, root_id, count, id) == has_parent_below(
                traces,
                root_id,
                last,
                id,
            )) by {
                if has_parent_below(traces, root_id, count, id) {
                    let k = choose|k: int|
                        0 <= k < count && (#[trigger] traces[k]).id == id && is_below(
                            traces,
                            root_id,
                            k,
                        );
                    assert(k < last);
                }
            }
            assert forall|k: int| #[trigger]
                is_last_parent(traces, root_id, count, id, k) implies changed[id] == moved[k].id by {
                assert(k != last);
                assert(is_last_parent(traces, root_id, last, id, k));
            }
        }
    }
}

/// A shift reaches the frames and events below the root and no others. The root's children move,
/// what stands deeper follows its parent, and everything that is reached has its identifier
/// computed anew.
pub proof fn law_shift_follows_the_tree<T>(
    entry: Entry<T>,
    root_id: Seq<char>,
    shift: int,
    ids: Ids<T>,
)
    ensures
        ({
            let all = entry.traces + entry.error_traces;
            let after = shifted(entry, root_id, shift, ids);
            let moved = after.traces + after.error_traces;
            &&& after.traces.len() == entry.traces.len()
            &&& after.error_traces.len() == entry.error_traces.len()
            &&& after.events.len() == entry.events.len()
            &&& after.error_events.len() == entry.error_events.len()
            &&& forall|i: int|
                0 <= i < all.len() ==> frame_follows(
                    all[i],
                    #[trigger] moved[i],
                    all,
                    moved,
                    root_id,
                    shift,
                    i,
                    ids,
                )
            &&& forall|i: int|
                0 <= i < entry.events.len() ==> event_follows(
                    entry.events[i],
                    #[trigger] after.events[i],
                    all,
                    moved,
                    root_id,
                    shift,
                    ids,
                )
            &&& forall|i: int|
                0 <= i < entry.error_events.len() ==> event_follows(
                    entry.error_events[i],
                    #[trigger] after.error_events[i],
                    all,
                    moved,
                    root_id,
                    shift,
                    ids,
                )
        }),
{
    lemma_shift_is_one_list(entry, root_id, shift, ids);
    let all = entry.traces + entry.error_traces;
    let n = all.len() as int;
    let after = shifted(entry, root_id, shift, ids);
    let moved = after.traces + after.error_traces;
    assert(entry.all_traces() == all);
    assert(after.all_traces() == moved);
    assert forall|i: int| 0 <= i < n implies frame_follows(
        all[i],
        #[trigger] moved[i],
        all,
        moved,
        root_id,
        shift,
        i,
        ids,
    ) by {
        lemma_table_of_frames_below(all, root_id, shift, ids, i, all[i].parent_trace_id);
        if has_parent_below(all, root_id, i, all[i].parent_trace_id) {
            lemma_last_parent(all, root_id, i, all[i].parent_trace_id);
        }
        if all[i].parent_trace_id == root_id || has_parent_below(
            all,
            root_id,
            i,
            all[i].parent_trace_id,
        ) {
            assert(TraceModel { id: all[i].id, ..moved[i] } == TraceModel {
                parent_trace_id: moved[i].parent_trace_id,
                pos_in_parent_trace: moved[i].pos_in_parent_trace,
                ..all[i]
            });
        }
    }
    assert(all.take(n) =~= all);
    assert forall|i: int| 0 <= i < entry.events.len() implies event_follows(
        entry.events[i],
        #[trigger] after.events[i],
        all,
        moved,
        root_id,
        shift,
        ids,
    ) by {
        let parent = entry.events[i].parent_trace_id;
        lemma_table_of_frames_below(all, root_id, shift, ids, n, parent);
        if has_parent_below(all, root_id, n, parent) {
            lemma_last_parent(all, root_id, n, parent);
        }
    }
    assert forall|i: int| 0 <= i < entry.error_events.len() implies event_follows(
        entry.error_events[i],
        #[trigger] after.error_events[i],
        all,
        moved,
        root_id,
        shift,
        ids,
    ) by {
        let parent = entry.error_events[i].parent_trace_id;
        lemma_table_of_frames_below(all, root_id, shift, ids, n, parent);
        if has_parent_below(all, root_id, n, parent) {
            lemma_last_parent(all, root_id, n, parent);
        }
    }
}

/// What `shift_root_children` does to the lists of an entry: it adds, drops and reorders nothing,
/// moves the root's children, and lets what stands below them follow.
pub proof fn law_shift_root_children<T, F, G>(
    entry: &mut TraceEntry<T>,
    root_id: &str,
    shift: usize,
    trace_id: &F,
    event_id: &G,
    ids: Ids<T>,
) where F: Fn(&DebankTrace<T>) -> String, G: Fn(&DebankEvent) -> String
    requires
        call_ensures(
            shift_root_children::<T, F, G>,
            (entry, root_id, shift, trace_id, event_id),
            (),
        ),
        computes_ids(trace_id, event_id, ids),
    ensures
        ({
            let before = entry_model(*old(entry));
            let after = entry_model(*final(entry));
            let all = before.traces + before.error_traces;
            let moved = after.traces + after.error_traces;
            &&& after.traces.len() == before.traces.len()
            &&& after.error_traces.len() == before.error_traces.len()
            &&& after.events.len() == before.events.len()
            &&& after.error_events.len() == before.error_events.len()
            &&& forall|i: int|
                0 <= i < all.len() ==> frame_follows(
                    all[i],
                    #[trigger] moved[i],
                    all,
                    moved,
                    root_id@,
                    shift as int,
                    i,
                    ids,
                )
            &&& forall|i: int|
                0 <= i < before.events.len() ==> event_follows(
                    before.events[i],
                    #[trigger] after.events[i],
                    all,
                    moved,
                    root_id@,
                    shift as int,
                    ids,
                )
            &&& forall|i: int|
                0 <= i < before.error_events.len() ==> event_follows(
                    before.error_events[i],
                    #[trigger] after.error_events[i],
                    all,
                    moved,
                    root_id@,
                    shift as int,
                    ids,
                )
        }),
{
    let arguments = (entry, root_id, shift, trace_id, event_id);
    assert(computes_ids(arguments.3, arguments.4, ids));
    law_shift_follows_the_tree(entry_model(*old(entry)), root_id@, shift as int, ids);
}

} // verus!
