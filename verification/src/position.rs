//! The positions of records in their parents.

use vstd::prelude::*;

use crate::record::{
    entry_model, event_models, trace_models, DebankEvent, DebankTrace, Entry, EventModel,
    TraceEntry, TraceModel,
};

verus! {

/// The parent and the position of each frame, as pairs.
pub open spec fn trace_links<T>(traces: Seq<TraceModel<T>>) -> Seq<(Seq<char>, int)> {
    Seq::new(traces.len(), |i: int| (traces[i].parent_trace_id, traces[i].pos_in_parent_trace))
}

/// The parent and the position of each event, as pairs.
pub open spec fn event_links(events: Seq<EventModel>) -> Seq<(Seq<char>, int)> {
    Seq::new(events.len(), |i: int| (events[i].parent_trace_id, events[i].pos_in_parent_trace))
}

/// The parent and the position of each record of an entry, as pairs.
pub open spec fn links<T>(entry: Entry<T>) -> Seq<(Seq<char>, int)> {
    trace_links(entry.traces) + trace_links(entry.error_traces) + event_links(entry.events)
        + event_links(entry.error_events)
}

/// `next` is the first position behind all children of `parent`.
pub open spec fn is_next_position(
    links: Seq<(Seq<char>, int)>,
    parent: Seq<char>,
    next: int,
) -> bool {
    &&& next >= 0
    &&& forall|i: int| 0 <= i < links.len() && (#[trigger] links[i]).0 == parent ==> links[i].1 < next
    &&& next > 0 ==> exists|i: int|
        0 <= i < links.len() && (#[trigger] links[i]).0 == parent && links[i].1 == next - 1
}

/// The first position behind all children of `parent`.
pub open spec fn next_position<T>(entry: Entry<T>, parent: Seq<char>) -> int {
    choose|next: int| is_next_position(links(entry), parent, next)
}


/// There is a first position behind all children of a record.
pub proof fn lemma_next_position_exists(links: Seq<(Seq<char>, int)>, parent: Seq<char>)
    ensures
        exists|next: int| is_next_position(links, parent, next),
    decreases links.len(),
{
    if links.len() == 0 {
        assert(is_next_position(links, parent, 0));
    } else {
        let front = links.drop_last();
        lemma_next_position_exists(front, parent);
        let next = choose|next: int| is_next_position(front, parent, next);
        let last = links.last();
        if last.0 == parent && last.1 >= next {
            assert(is_next_position(links, parent, last.1 + 1)) by {
                assert(links[links.len() - 1] == last);
                assert forall|i: int|
                    0 <= i < links.len() && (#[trigger] links[i]).0 == parent implies links[i].1
                    < last.1 + 1 by {
                    if i < front.len() {
                        assert(front[i] == links[i]);
                    }
                }
            }
        } else {
            assert(is_next_position(links, parent, next)) by {
                assert forall|i: int|
                    0 <= i < links.len() && (#[trigger] links[i]).0 == parent implies links[i].1
                    < next by {
                    if i < front.len() {
                        assert(front[i] == links[i]);
                    }
                }
                if next > 0 {
                    let i = choose|i: int|
                        0 <= i < front.len() && (#[trigger] front[i]).0 == parent && front[i].1
                            == next - 1;
                    assert(links[i] == front[i]);
                }
            }
        }
    }
}

/// There is no more than one first position behind all children of a record.
pub proof fn lemma_next_position_unique<T>(entry: Entry<T>, parent: Seq<char>, next: int)
    requires
        is_next_position(links(entry), parent, next),
    ensures
        next_position(entry, parent) == next,
{
    let other = next_position(entry, parent);
    assert(is_next_position(links(entry), parent, other));
}

/// The first position at or behind `next` that lies behind all children of `parent` in `links`.
spec fn is_raised(
    links: Seq<(Seq<char>, int)>,
    parent: Seq<char>,
    next: int,
    raised: int,
) -> bool {
    &&& raised >= next
    &&& forall|i: int|
        0 <= i < links.len() && (#[trigger] links[i]).0 == parent ==> links[i].1 < raised
    &&& raised > next ==> exists|i: int|
        0 <= i < links.len() && (#[trigger] links[i]).0 == parent && links[i].1 == raised - 1
}

/// Raises a position behind the children of more records.
proof fn lemma_raise(
    before: Seq<(Seq<char>, int)>,
    links: Seq<(Seq<char>, int)>,
    parent: Seq<char>,
    next: int,
    raised: int,
)
    requires
        is_next_position(before, parent, next),
        is_raised(links, parent, next, raised),
    ensures
        is_next_position(before + links, parent, raised),
{
    let all = before + links;
    assert forall|i: int| 0 <= i < all.len() && (#[trigger] all[i]).0 == parent implies all[i].1
        < raised by {
        if i < before.len() {
            assert(all[i] == before[i]);
        } else {
            assert(all[i] == links[i - before.len()]);
        }
    }
    if raised > next {
        let i = choose|i: int|
            0 <= i < links.len() && (#[trigger] links[i]).0 == parent && links[i].1 == raised - 1;
        assert(all[before.len() + i] == links[i]);
    } else if raised > 0 {
        let i = choose|i: int|
            0 <= i < before.len() && (#[trigger] before[i]).0 == parent && before[i].1 == next - 1;
        assert(all[i] == before[i]);
    }
}

/// A child of `parent` has the last position of all.
spec fn has_full_child(links: Seq<(Seq<char>, int)>, parent: Seq<char>) -> bool {
    exists|i: int|
        0 <= i < links.len() && (#[trigger] links[i]).0 == parent && links[i].1 == usize::MAX
}

/// No position is left behind the last of all.
proof fn lemma_full_child<T>(
    entry: Entry<T>,
    before: Seq<(Seq<char>, int)>,
    part: Seq<(Seq<char>, int)>,
    behind: Seq<(Seq<char>, int)>,
    parent: Seq<char>,
)
    requires
        links(entry) == before + part + behind,
        has_full_child(part, parent),
    ensures
        next_position(entry, parent) > usize::MAX,
{
    let all = links(entry);
    lemma_next_position_exists(all, parent);
    let i = choose|i: int|
        0 <= i < part.len() && (#[trigger] part[i]).0 == parent && part[i].1 == usize::MAX;
    assert(all[before.len() + i] == part[i]);
    assert(is_next_position(all, parent, next_position(entry, parent)));
}

/// Raises a position behind the children of `parent` among the frames. Returns nothing where one of
/// them has the last position of all.
fn raise_by_traces<T>(traces: &Vec<DebankTrace<T>>, parent: &String, next: usize) -> (raised: Option<
    usize,
>)
    ensures
        match raised {
            Some(raised) => is_raised(
                trace_links(trace_models(traces@)),
                parent@,
                next as int,
                raised as int,
            ),
            None => has_full_child(trace_links(trace_models(traces@)), parent@),
        },
{
    let ghost pairs = trace_links(trace_models(traces@));
    let mut raised: usize = next;
    let mut i: usize = 0;
    while i < traces.len()
        invariant
            i <= traces@.len(),
            pairs == trace_links(trace_models(traces@)),
            raised >= next,
            forall|j: int| 0 <= j < i && (#[trigger] pairs[j]).0 == parent@ ==> pairs[j].1 < raised,
            raised > next ==> exists|j: int|
                0 <= j < pairs.len() && (#[trigger] pairs[j]).0 == parent@ && pairs[j].1 == raised
                    - 1,
        decreases traces@.len() - i,
    {
        assert(pairs[i as int] == (
            traces@[i as int]@.parent_trace_id,
            traces@[i as int].pos_in_parent_trace as int,
        ));
        if traces[i].parent_trace_id == *parent && traces[i].pos_in_parent_trace >= raised {
            if traces[i].pos_in_parent_trace == usize::MAX {
                return None;
            }
            raised = traces[i].pos_in_parent_trace + 1;
        }
        i += 1;
    }
    Some(raised)
}

/// Raises a position behind the children of `parent` among the events. Returns nothing where one of
/// them has the last position of all.
fn raise_by_events(events: &Vec<DebankEvent>, parent: &String, next: usize) -> (raised: Option<
    usize,
>)
    ensures
        match raised {
            Some(raised) => is_raised(
                event_links(event_models(events@)),
                parent@,
                next as int,
                raised as int,
            ),
            None => has_full_child(event_links(event_models(events@)), parent@),
        },
{
    let ghost pairs = event_links(event_models(events@));
    let mut raised: usize = next;
    let mut i: usize = 0;
    while i < events.len()
        invariant
            i <= events@.len(),
            pairs == event_links(event_models(events@)),
            raised >= next,
            forall|j: int| 0 <= j < i && (#[trigger] pairs[j]).0 == parent@ ==> pairs[j].1 < raised,
            raised > next ==> exists|j: int|
                0 <= j < pairs.len() && (#[trigger] pairs[j]).0 == parent@ && pairs[j].1 == raised
                    - 1,
        decreases events@.len() - i,
    {
        assert(pairs[i as int] == (
            events@[i as int]@.parent_trace_id,
            events@[i as int].pos_in_parent_trace as int,
        ));
        if events[i].parent_trace_id == *parent && events[i].pos_in_parent_trace >= raised {
            if events[i].pos_in_parent_trace == usize::MAX {
                return None;
            }
            raised = events[i].pos_in_parent_trace + 1;
        }
        i += 1;
    }
    Some(raised)
}

/// The first position behind all children of `parent`, where there is one.
pub(crate) fn find_next_position<T>(entry: &TraceEntry<T>, parent: &String) -> (next: Option<usize>)
    ensures
        match next {
            Some(next) => next == next_position(entry_model(*entry), parent@),
            None => next_position(entry_model(*entry), parent@) > usize::MAX,
        },
{
    let ghost model = entry_model(*entry);
    let ghost none = Seq::<(Seq<char>, int)>::empty();
    let ghost part0 = trace_links(model.traces);
    let ghost part1 = trace_links(model.error_traces);
    let ghost part2 = event_links(model.events);
    let ghost part3 = event_links(model.error_events);
    proof {
        assert(links(model) =~= none + part0 + (part1 + part2 + part3));
        assert(links(model) =~= part0 + part1 + (part2 + part3));
        assert(links(model) =~= part0 + part1 + part2 + part3);
        assert(links(model) =~= part0 + part1 + part2 + part3 + none);
    }
    let next0: usize = match raise_by_traces(&entry.0, parent, 0) {
        Some(next) => next,
        None => {
            proof {
                lemma_full_child(model, none, part0, part1 + part2 + part3, parent@);
            }
            return None;
        },
    };
    let next1: usize = match raise_by_traces(&entry.1, parent, next0) {
        Some(next) => next,
        None => {
            proof {
                lemma_full_child(model, part0, part1, part2 + part3, parent@);
            }
            return None;
        },
    };
    let next2: usize = match raise_by_events(&entry.2, parent, next1) {
        Some(next) => next,
        None => {
            proof {
                lemma_full_child(model, part0 + part1, part2, part3, parent@);
            }
            return None;
        },
    };
    let next3: usize = match raise_by_events(&entry.3, parent, next2) {
        Some(next) => next,
        None => {
            proof {
                lemma_full_child(model, part0 + part1 + part2, part3, none, parent@);
            }
            return None;
        },
    };
    proof {
        assert(is_next_position(part0, parent@, next0 as int));
        lemma_raise(part0, part1, parent@, next0 as int, next1 as int);
        lemma_raise(part0 + part1, part2, parent@, next1 as int, next2 as int);
        lemma_raise(part0 + part1 + part2, part3, parent@, next2 as int, next3 as int);
        lemma_next_position_unique(model, parent@, next3 as int);
    }
    Some(next3)
}

} // verus!
