//! The canonical indexes of successful and reverted events.

use vstd::prelude::*;

use crate::event::{canonical_index, comparable, event_matches_log, is_comparable, matches_log};
use crate::record::{event_models, log_models, DebankEvent, EventModel, Log, LogModel};

verus! {

/// The first `offset` events match their logs.
pub open spec fn matches_before(
    events: Seq<EventModel>,
    logs: Seq<LogModel>,
    offset: int,
) -> bool {
    forall|i: int| 0 <= i < offset ==> matches_log(#[trigger] events[i], logs[i])
}

/// The event at `offset` is the first that differs from its log.
pub open spec fn is_first_mismatch(
    events: Seq<EventModel>,
    logs: Seq<LogModel>,
    offset: int,
) -> bool {
    &&& 0 <= offset < events.len()
    &&& !matches_log(events[offset], logs[offset])
    &&& matches_before(events, logs, offset)
}

/// Where the events first differ from the logs, if they do.
pub open spec fn first_mismatch(events: Seq<EventModel>, logs: Seq<LogModel>) -> Option<int> {
    if exists|offset: int| is_first_mismatch(events, logs, offset) {
        Some(choose|offset: int| is_first_mismatch(events, logs, offset))
    } else {
        None
    }
}

/// The first `count` events with the indexes of their logs; `start` is the index of the first log
/// where the logs have none.
pub open spec fn indexed(
    events: Seq<EventModel>,
    logs: Seq<LogModel>,
    start: int,
    count: int,
) -> Seq<EventModel> {
    Seq::new(
        events.len(),
        |i: int|
            if i < count {
                EventModel { idx: canonical_index(logs[i], start + i), ..events[i] }
            } else {
                events[i]
            },
    )
}

/// Of the events at or after `idx` in the inspector's count, the one at `i` comes first.
pub open spec fn is_next_event(events: Seq<EventModel>, idx: int, i: int) -> bool {
    &&& 0 <= i < events.len()
    &&& events[i].idx >= idx
    &&& forall|j: int|
        0 <= j < events.len() && (#[trigger] events[j]).idx >= idx ==> events[i].idx < events[j].idx
            || events[i].idx == events[j].idx && i <= j
}

/// Of all events in the inspector's count, the one at `i` comes last.
pub open spec fn is_last_event(events: Seq<EventModel>, i: int) -> bool {
    &&& 0 <= i < events.len()
    &&& forall|j: int|
        0 <= j < events.len() ==> (#[trigger] events[j]).idx < events[i].idx || events[j].idx
            == events[i].idx && j <= i
}

/// The canonical index for a reverted event at `idx` in the inspector's count: that of the next
/// successful event, else one behind that of the last, else `fallback`.
///
/// `events` has the indexes of the inspector's count, `canonical` the events' canonical ones.
pub open spec fn reverted_index(
    events: Seq<EventModel>,
    canonical: Seq<EventModel>,
    idx: int,
    fallback: int,
) -> int {
    if exists|i: int| is_next_event(events, idx, i) {
        canonical[choose|i: int| is_next_event(events, idx, i)].idx
    } else if exists|i: int| is_last_event(events, i) {
        let last = canonical[choose|i: int| is_last_event(events, i)].idx;
        if last < usize::MAX {
            last + 1
        } else {
            last
        }
    } else {
        fallback
    }
}

/// The reverted events with their canonical indexes.
pub open spec fn reverted(
    error_events: Seq<EventModel>,
    events: Seq<EventModel>,
    canonical: Seq<EventModel>,
    fallback: int,
) -> Seq<EventModel> {
    Seq::new(
        error_events.len(),
        |i: int|
            EventModel {
                idx: reverted_index(events, canonical, error_events[i].idx, fallback),
                ..error_events[i]
            },
    )
}


/// The comparison is defined as far as it gets: no log without topics is compared beyond its
/// selector, and the indexes of the logs fit into `usize`.
pub open spec fn comparison_defined(
    events: Seq<EventModel>,
    logs: Seq<LogModel>,
    start: int,
) -> bool {
    forall|i: int|
        0 <= i < events.len() && matches_before(events, logs, i) ==> comparable(
            #[trigger] events[i],
            logs[i],
        ) && (matches_log(events[i], logs[i]) ==> start + i <= usize::MAX)
}

/// The boundaries pair the indexes of the events in the inspector's count with the canonical ones.
pub(crate) open spec fn are_boundaries(
    boundaries: Seq<(usize, usize)>,
    events: Seq<EventModel>,
    canonical: Seq<EventModel>,
) -> bool {
    &&& boundaries.len() == events.len()
    &&& boundaries.len() == canonical.len()
    &&& forall|i: int|
        0 <= i < boundaries.len() ==> (#[trigger] boundaries[i]).0 == events[i].idx
            && boundaries[i].1 == canonical[i].idx
}

/// Gives the events the canonical indexes of their logs, which stand in the receipt from `from` on.
/// Returns the pairs of old and new indexes, or the place of the first event that differs from its
/// log; nothing where the comparison is not defined.
pub(crate) fn index_events(
    events: &mut Vec<DebankEvent>,
    logs: &[Log],
    from: usize,
    start: usize,
) -> (outcome: Option<Result<Vec<(usize, usize)>, usize>>)
    requires
        from + old(events)@.len() <= logs@.len(),
    ensures
        outcome is Some == comparison_defined(
            event_models(old(events)@),
            log_models(logs@).subrange(from as int, from + old(events)@.len()),
            start + from,
        ),
        ({
            let before = event_models(old(events)@);
            let main = log_models(logs@).subrange(from as int, from + old(events)@.len());
            match outcome {
                None => true,
                Some(Ok(boundaries)) => {
                    &&& first_mismatch(before, main) is None
                    &&& event_models(final(events)@) == indexed(
                        before,
                        main,
                        start + from,
                        before.len() as int,
                    )
                    &&& are_boundaries(boundaries@, before, event_models(final(events)@))
                },
                Some(Err(offset)) => {
                    &&& first_mismatch(before, main) == Some(offset as int)
                    &&& event_models(final(events)@) == indexed(
                        before,
                        main,
                        start + from,
                        offset as int,
                    )
                },
            }
        }),
{
    let ghost before = event_models(events@);
    let ghost main = log_models(logs@).subrange(from as int, from + events@.len());
    let total: usize = logs.len();
    let mut boundaries: Vec<(usize, usize)> = Vec::with_capacity(events.len());
    let mut offset: usize = 0;
    assert(event_models(events@) =~= indexed(before, main, start + from, 0));
    while offset < events.len()
        invariant
            offset <= events@.len(),
            before == event_models(old(events)@),
            events@.len() == before.len(),
            total == logs@.len(),
            from + before.len() <= total,
            main == log_models(logs@).subrange(from as int, from + before.len()),
            matches_before(before, main, offset as int),
            forall|i: int|
                0 <= i < offset ==> comparable(#[trigger] before[i], main[i]) && start + from + i
                    <= usize::MAX,
            event_models(events@) == indexed(before, main, start + from, offset as int),
            boundaries@.len() == offset,
            forall|i: int|
                0 <= i < offset ==> (#[trigger] boundaries@[i]).0 == before[i].idx
                    && boundaries@[i].1 == event_models(events@)[i].idx,
        decreases events@.len() - offset,
    {
        let ghost earlier = event_models(events@);
        let log = &logs[from + offset];
        proof {
            assert(earlier[offset as int] == before[offset as int]);
            assert(main[offset as int] == log@);
        }
        if !is_comparable(&events[offset], log) {
            assert(!comparable(before[offset as int], main[offset as int]));
            return None;
        }
        if !event_matches_log(&events[offset], log) {
            proof {
                assert(is_first_mismatch(before, main, offset as int));
                lemma_mismatch_unique(before, main, offset as int);
            }
            return Some(Err(offset));
        }
        let receipt_index: usize = from + offset;
        if start > usize::MAX - receipt_index {
            assert(matches_log(before[offset as int], main[offset as int]));
            return None;
        }
        let inspector_index: usize = events[offset].idx;
        let fallback: usize = start + receipt_index;
        let index: usize = match log.log_index {
            Some(index) => index as usize,
            None => fallback,
        };
        events[offset].idx = index;
        boundaries.push((inspector_index, index));
        proof {
            let now = event_models(events@);
            assert(now =~= earlier.update(
                offset as int,
                EventModel { idx: index as int, ..before[offset as int] },
            ));
            assert(now =~= indexed(before, main, start + from, offset + 1));
        }
        offset += 1;
    }
    assert(first_mismatch(before, main) is None) by {
        assert forall|i: int| !is_first_mismatch(before, main, i) by {
            assert(0 <= i < before.len() ==> matches_log(before[i], main[i]));
        }
    }
    Some(Ok(boundaries))
}

/// There is one first mismatch.
proof fn lemma_mismatch_unique(events: Seq<EventModel>, logs: Seq<LogModel>, offset: int)
    requires
        is_first_mismatch(events, logs, offset),
    ensures
        first_mismatch(events, logs) == Some(offset),
{
    let other = choose|i: int| is_first_mismatch(events, logs, i);
    assert(is_first_mismatch(events, logs, other));
    if other < offset {
        assert(matches_log(events[other], logs[other]));
    } else if offset < other {
        assert(matches_log(events[offset], logs[offset]));
    }
}

/// The canonical index for a reverted event.
fn find_reverted_index(
    boundaries: &Vec<(usize, usize)>,
    idx: usize,
    fallback: usize,
    Ghost(events): Ghost<Seq<EventModel>>,
    Ghost(canonical): Ghost<Seq<EventModel>>,
) -> (index: usize)
    requires
        are_boundaries(boundaries@, events, canonical),
    ensures
        index == reverted_index(events, canonical, idx as int, fallback as int),
{
    let mut next: Option<usize> = None;
    let mut last: Option<usize> = None;
    let mut i: usize = 0;
    while i < boundaries.len()
        invariant
            i <= boundaries@.len(),
            are_boundaries(boundaries@, events, canonical),
            next matches Some(n) ==> n < i && boundaries@[n as int].0 >= idx && forall|j: int|
                0 <= j < i && (#[trigger] boundaries@[j]).0 >= idx ==> boundaries@[n as int].0
                    < boundaries@[j].0 || boundaries@[n as int].0 == boundaries@[j].0 && n <= j,
            next is None ==> forall|j: int| 0 <= j < i ==> (#[trigger] boundaries@[j]).0 < idx,
            last matches Some(n) ==> n < i && forall|j: int|
                0 <= j < i ==> (#[trigger] boundaries@[j]).0 < boundaries@[n as int].0
                    || boundaries@[j].0 == boundaries@[n as int].0 && j <= n,
            last is None ==> i == 0,
        decreases boundaries@.len() - i,
    {
        let counted: usize = boundaries[i].0;
        if counted >= idx {
            match next {
                Some(n) => {
                    if counted < boundaries[n].0 {
                        next = Some(i);
                    }
                },
                None => {
                    next = Some(i);
                },
            }
        }
        match last {
            Some(n) => {
                if counted >= boundaries[n].0 {
                    last = Some(i);
                }
            },
            None => {
                last = Some(i);
            },
        }
        i += 1;
    }
    proof {
        assert forall|j: int| 0 <= j < events.len() implies (#[trigger] events[j]).idx
            == boundaries@[j].0 && canonical[j].idx == boundaries@[j].1 by {
            let pair = boundaries@[j];
        }
        match next {
            Some(n) => {
                assert(is_next_event(events, idx as int, n as int));
                let other = choose|j: int| is_next_event(events, idx as int, j);
                assert(is_next_event(events, idx as int, other));
                assert(other == n);
            },
            None => {
                assert forall|j: int| !is_next_event(events, idx as int, j) by {
                    if 0 <= j < events.len() {
                        assert(boundaries@[j].0 < idx);
                    }
                }
            },
        }
        match last {
            Some(n) => {
                assert(is_last_event(events, n as int));
                let other = choose|j: int| is_last_event(events, j);
                assert(is_last_event(events, other));
                assert(other == n);
            },
            None => {
                assert(forall|j: int| !is_last_event(events, j));
            },
        }
    }
    match next {
        Some(n) => boundaries[n].1,
        None => match last {
            Some(n) => boundaries[n].1.saturating_add(1),
            None => fallback,
        },
    }
}

/// Gives the reverted events their canonical indexes.
pub(crate) fn place_reverted(
    error_events: &mut Vec<DebankEvent>,
    boundaries: &Vec<(usize, usize)>,
    from: usize,
    start: usize,
    Ghost(events): Ghost<Seq<EventModel>>,
    Ghost(canonical): Ghost<Seq<EventModel>>,
)
    requires
        are_boundaries(boundaries@, events, canonical),
        old(error_events)@.len() > 0 ==> start + from <= usize::MAX,
    ensures
        event_models(final(error_events)@) == reverted(
            event_models(old(error_events)@),
            events,
            canonical,
            start + from,
        ),
{
    let ghost before = event_models(error_events@);
    let ghost placed = reverted(before, events, canonical, start + from);
    let mut i: usize = 0;
    while i < error_events.len()
        invariant
            i <= error_events@.len(),
            error_events@.len() == before.len(),
            before.len() > 0 ==> start + from <= usize::MAX,
            are_boundaries(boundaries@, events, canonical),
            placed == reverted(before, events, canonical, start + from),
            forall|j: int| 0 <= j < i ==> (#[trigger] error_events@[j])@ == placed[j],
            forall|j: int| i <= j < before.len() ==> (#[trigger] error_events@[j])@ == before[j],
        decreases error_events@.len() - i,
    {
        assert(error_events@[i as int]@ == before[i as int]);
        let fallback: usize = start + from;
        let index: usize = find_reverted_index(
            boundaries,
            error_events[i].idx,
            fallback,
            Ghost(events),
            Ghost(canonical),
        );
        error_events[i].idx = index;
        i += 1;
    }
    assert(event_models(error_events@) =~= placed);
}

} // verus!
