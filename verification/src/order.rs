//! The order of events by their index.

use vstd::prelude::*;

use crate::record::{event_models, DebankEvent, EventModel};

verus! {

/// The events with the given index, in order.
pub open spec fn with_idx(events: Seq<EventModel>, idx: int) -> Seq<EventModel> {
    events.filter(|event: EventModel| event.idx == idx)
}

/// No event has a larger index than one behind it.
pub open spec fn is_ordered(events: Seq<EventModel>) -> bool {
    forall|i: int, j: int|
        0 <= i < j < events.len() ==> (#[trigger] events[i]).idx <= (#[trigger] events[j]).idx
}

/// `after` holds the events of `before`, ordered by index; events with one index keep their order.
pub open spec fn is_stable_order(before: Seq<EventModel>, after: Seq<EventModel>) -> bool {
    &&& is_ordered(after)
    &&& after.len() == before.len()
    &&& forall|idx: int| #[trigger] with_idx(after, idx) == with_idx(before, idx)
}

/// The events in order of their index; events with one index keep their order.
pub open spec fn ordered(events: Seq<EventModel>) -> Seq<EventModel> {
    choose|after: Seq<EventModel>| is_stable_order(events, after)
}

/// Splits the events with an index at the end of the first part.
pub proof fn lemma_with_idx_add(left: Seq<EventModel>, right: Seq<EventModel>, idx: int)
    ensures
        with_idx(left + right, idx) == with_idx(left, idx) + with_idx(right, idx),
{
    Seq::filter_distributes_over_add(left, right, |event: EventModel| event.idx == idx);
}

/// The events with an index in a list of one.
proof fn lemma_with_idx_one(event: EventModel, idx: int)
    ensures
        with_idx(seq![event], idx) == if event.idx == idx {
            seq![event]
        } else {
            Seq::<EventModel>::empty()
        },
{
    reveal_with_fuel(Seq::filter, 2);
    assert(seq![event].drop_last() =~= Seq::<EventModel>::empty());
    assert(with_idx(seq![event], idx) =~= if event.idx == idx {
        seq![event]
    } else {
        Seq::<EventModel>::empty()
    });
}

/// A list in which no event has the index.
pub proof fn lemma_with_idx_none(events: Seq<EventModel>, idx: int)
    requires
        forall|i: int| 0 <= i < events.len() ==> (#[trigger] events[i]).idx != idx,
    ensures
        with_idx(events, idx) == Seq::<EventModel>::empty(),
    decreases events.len(),
{
    reveal(Seq::filter);
    if events.len() > 0 {
        lemma_with_idx_none(events.drop_last(), idx);
    } else {
        assert(with_idx(events, idx) =~= Seq::<EventModel>::empty());
    }
}

/// Moving an event to the front of a run of larger ones keeps the events with each index.
proof fn lemma_insert_keeps(
    left: Seq<EventModel>,
    larger: Seq<EventModel>,
    event: EventModel,
    right: Seq<EventModel>,
    idx: int,
)
    requires
        forall|i: int| 0 <= i < larger.len() ==> (#[trigger] larger[i]).idx > event.idx,
    ensures
        with_idx(left + seq![event] + larger + right, idx) == with_idx(
            left + larger + seq![event] + right,
            idx,
        ),
{
    lemma_with_idx_add(left + seq![event] + larger, right, idx);
    lemma_with_idx_add(left + seq![event], larger, idx);
    lemma_with_idx_add(left, seq![event], idx);
    lemma_with_idx_add(left + larger + seq![event], right, idx);
    lemma_with_idx_add(left + larger, seq![event], idx);
    lemma_with_idx_add(left, larger, idx);
    lemma_with_idx_one(event, idx);
    let none = Seq::<EventModel>::empty();
    if idx == event.idx {
        lemma_with_idx_none(larger, idx);
        assert(with_idx(left, idx) + seq![event] + none =~= with_idx(left, idx) + none + seq![event]);
    } else {
        assert(with_idx(left, idx) + none + with_idx(larger, idx) =~= with_idx(left, idx)
            + with_idx(larger, idx) + none);
    }
}

/// Where the last event goes in the stable order of a list, given that of the events before it.
proof fn lemma_order_step(events: Seq<EventModel>) -> (place: int)
    requires
        events.len() > 0,
        is_stable_order(events.drop_last(), ordered(events.drop_last())),
    ensures
        0 <= place < events.len(),
        is_stable_order(events, ordered(events.drop_last()).insert(place, events.last())),
        forall|i: int|
            place <= i < events.len() - 1 ==> (#[trigger] ordered(events.drop_last())[i]).idx
                > events.last().idx,
{
    let event = events.last();
    let last = seq![event];
    let front = events.drop_last();
    let sorted = ordered(front);
    let place = lemma_place(sorted, event.idx);
    let left = sorted.take(place);
    let larger = sorted.skip(place);
    let none = Seq::<EventModel>::empty();
    let after = sorted.insert(place, event);
    assert(after =~= left + last + larger + none);
    assert(sorted + last =~= left + larger + last + none);
    assert(events =~= front + last);
    assert forall|idx: int| #[trigger] with_idx(after, idx) == with_idx(events, idx) by {
        lemma_insert_keeps(left, larger, event, none, idx);
        lemma_with_idx_add(sorted, last, idx);
        lemma_with_idx_add(front, last, idx);
        assert(with_idx(sorted, idx) == with_idx(front, idx));
    }
    place
}

/// The place behind all events whose index is at most `idx`.
proof fn lemma_place(events: Seq<EventModel>, idx: int) -> (place: int)
    requires
        is_ordered(events),
    ensures
        0 <= place <= events.len(),
        forall|i: int| 0 <= i < place ==> (#[trigger] events[i]).idx <= idx,
        forall|i: int| place <= i < events.len() ==> (#[trigger] events[i]).idx > idx,
    decreases events.len(),
{
    if events.len() == 0 || events.last().idx <= idx {
        events.len() as int
    } else {
        let front = events.drop_last();
        let place = lemma_place(front, idx);
        assert forall|i: int| 0 <= i < place implies (#[trigger] events[i]).idx <= idx by {
            assert(events[i] == front[i]);
        }
        assert forall|i: int| place <= i < events.len() implies (#[trigger] events[i]).idx > idx by {
            if i < front.len() {
                assert(events[i] == front[i]);
            }
        }
        place
    }
}

/// Every list has a stable order.
pub proof fn law_order_exists(events: Seq<EventModel>)
    ensures
        is_stable_order(events, ordered(events)),
    decreases events.len(),
{
    if events.len() == 0 {
        assert(is_stable_order(events, events));
    } else {
        law_order_exists(events.drop_last());
        let place = lemma_order_step(events);
        assert(is_stable_order(
            events,
            ordered(events.drop_last()).insert(place, events.last()),
        ));
    }
}

/// A list has no more than one stable order.
pub proof fn law_order_unique(
    events: Seq<EventModel>,
    left: Seq<EventModel>,
    right: Seq<EventModel>,
)
    requires
        is_stable_order(events, left),
        is_stable_order(events, right),
    ensures
        left == right,
{
    assert forall|idx: int| #[trigger] with_idx(left, idx) == with_idx(right, idx) by {
        assert(with_idx(left, idx) == with_idx(events, idx));
        assert(with_idx(right, idx) == with_idx(events, idx));
    }
    lemma_same_groups(left, right);
}

/// Ordered lists of one length that agree on the events with each index are equal.
proof fn lemma_same_groups(left: Seq<EventModel>, right: Seq<EventModel>)
    requires
        is_ordered(left),
        is_ordered(right),
        left.len() == right.len(),
        forall|idx: int| #[trigger] with_idx(left, idx) == with_idx(right, idx),
    ensures
        left == right,
    decreases left.len(),
{
    reveal(Seq::filter);
    if left.len() == 0 {
        assert(left =~= right);
    } else {
        let n = left.len() - 1;
        lemma_last_group(left, right);
        lemma_last_group(right, left);
        let idx = left.last().idx;
        assert(with_idx(left, idx).last() == left.last());
        assert(with_idx(right, idx).last() == right.last());
        assert(with_idx(left, idx) == with_idx(right, idx));
        let event = left.last();
        assert(left =~= left.drop_last().push(event));
        assert(right =~= right.drop_last().push(event));
        assert forall|k: int| #[trigger]
            with_idx(left.drop_last(), k) == with_idx(right.drop_last(), k) by {
            assert(with_idx(left, k) == with_idx(right, k));
            if k == event.idx {
                assert(with_idx(left, k).drop_last() =~= with_idx(left.drop_last(), k));
                assert(with_idx(right, k).drop_last() =~= with_idx(right.drop_last(), k));
            }
        }
        lemma_same_groups(left.drop_last(), right.drop_last());
    }
}

/// The last index of one list is at most that of the other.
proof fn lemma_last_group(left: Seq<EventModel>, right: Seq<EventModel>)
    requires
        is_ordered(right),
        left.len() > 0,
        left.len() == right.len(),
        forall|idx: int| #[trigger] with_idx(left, idx) == with_idx(right, idx),
    ensures
        left.last().idx <= right.last().idx,
{
    reveal(Seq::filter);
    let idx = left.last().idx;
    if right.last().idx < idx {
        assert forall|i: int| 0 <= i < right.len() implies (#[trigger] right[i]).idx != idx by {
            if i < right.len() - 1 {
                assert(right[i].idx <= right[right.len() - 1].idx);
            }
        }
        lemma_with_idx_none(right, idx);
        assert(with_idx(left, idx) == with_idx(right, idx));
        assert(with_idx(left, idx).len() > 0);
    }
}

/// `after` holds the events of `before`, each once: the one at `i` comes from `places[i]`. Events
/// with one index keep their order.
pub open spec fn is_rearrangement(
    before: Seq<EventModel>,
    after: Seq<EventModel>,
    places: Seq<int>,
) -> bool {
    &&& after.len() == before.len()
    &&& places.len() == before.len()
    &&& places.no_duplicates()
    &&& forall|k: int| 0 <= k < before.len() ==> #[trigger] places.contains(k)
    &&& forall|i: int|
        0 <= i < after.len() ==> 0 <= #[trigger] places[i] < before.len() && after[i]
            == before[places[i]]
    &&& forall|i: int, j: int|
        0 <= i < j < after.len() && (#[trigger] after[i]).idx == (#[trigger] after[j]).idx
            ==> places[i] < places[j]
}

/// Ordering a list adds, drops and repeats nothing.
pub proof fn law_order_rearranges(events: Seq<EventModel>) -> (places: Seq<int>)
    ensures
        is_rearrangement(events, ordered(events), places),
    decreases events.len(),
{
    law_order_exists(events);
    if events.len() == 0 {
        Seq::empty()
    } else {
        let front = events.drop_last();
        let before = law_order_rearranges(front);
        law_order_exists(front);
        let place = lemma_order_step(events);
        let after = ordered(front).insert(place, events.last());
        law_order_unique(events, ordered(events), after);
        let last = front.len() as int;
        let places = before.insert(place, last);
        assert forall|i: int| 0 <= i < after.len() implies 0 <= #[trigger] places[i] < events.len()
            && after[i] == events[places[i]] by {
            if i < place {
                assert(places[i] == before[i]);
            } else if i > place {
                assert(places[i] == before[i - 1]);
            }
        }
        assert forall|k: int| 0 <= k < events.len() implies #[trigger] places.contains(k) by {
            if k == last {
                assert(places[place] == k);
            } else {
                assert(before.contains(k));
                let i = before.index_of(k);
                assert(places[if i < place {
                    i
                } else {
                    i + 1
                }] == k);
            }
        }
        assert forall|i: int, j: int|
            0 <= i < places.len() && 0 <= j < places.len() && i != j implies places[i]
            != places[j] by {
            let from = if i < place {
                i
            } else {
                i - 1
            };
            let to = if j < place {
                j
            } else {
                j - 1
            };
            assert(i != place ==> places[i] == before[from] && before[from] < last);
            assert(j != place ==> places[j] == before[to] && before[to] < last);
        }
        assert forall|i: int, j: int|
            0 <= i < j < after.len() && (#[trigger] after[i]).idx == (
            #[trigger] after[j]).idx implies places[i] < places[j] by {
            let sorted = ordered(front);
            if i == place {
                assert(after[j] == sorted[j - 1]);
            } else {
                let from = if i < place {
                    i
                } else {
                    i - 1
                };
                assert(after[i] == sorted[from]);
                assert(places[i] == before[from]);
                if j != place {
                    let to = if j < place {
                        j
                    } else {
                        j - 1
                    };
                    assert(after[j] == sorted[to]);
                    assert(places[j] == before[to]);
                }
            }
        }
        places
    }
}

/// Puts the events in order of their index; events with one index keep their order.
pub fn sort_events(events: &mut Vec<DebankEvent>)
    ensures
        event_models(final(events)@) == ordered(event_models(old(events)@)),
{
    let ghost before = event_models(events@);
    let mut i: usize = 0;
    while i < events.len()
        invariant
            i <= events@.len(),
            events@.len() == before.len(),
            is_ordered(event_models(events@).take(i as int)),
            forall|idx: int| #[trigger]
                with_idx(event_models(events@), idx) == with_idx(before, idx),
        decreases events@.len() - i,
    {
        let ghost now = event_models(events@);
        let idx: usize = events[i].idx;
        let mut place: usize = i;
        while place > 0 && events[place - 1].idx > idx
            invariant
                place <= i < events@.len(),
                now == event_models(events@),
                is_ordered(now.take(i as int)),
                forall|j: int| place <= j < i ==> (#[trigger] now[j]).idx > idx,
            decreases place,
        {
            assert(now[place - 1].idx > idx);
            place -= 1;
        }
        assert(place > 0 ==> now[place - 1].idx <= idx);
        let event = events.remove(i);
        events.insert(place, event);
        proof {
            let after = event_models(events@);
            let left = now.take(place as int);
            let larger = now.subrange(place as int, i as int);
            let right = now.skip(i + 1);
            let moved = now[i as int];
            assert(now =~= left + larger + seq![moved] + right);
            assert(after =~= left + seq![moved] + larger + right);
            assert forall|k: int| #[trigger] with_idx(after, k) == with_idx(before, k) by {
                lemma_insert_keeps(left, larger, moved, right, k);
                assert(with_idx(now, k) == with_idx(before, k));
            }
            assert forall|j: int, k: int| 0 <= j < k < i + 1 implies (#[trigger] after.take(
                i + 1,
            )[j]).idx <= (#[trigger] after.take(i + 1)[k]).idx by {
                let sorted = now.take(i as int);
                assert(forall|m: int| 0 <= m < i ==> sorted[m] == #[trigger] now[m]);
                assert(place > 0 ==> sorted[place - 1].idx <= idx);
                if k < place {
                    assert(sorted[j].idx <= sorted[k].idx);
                } else if k == place {
                    assert(sorted[j].idx <= sorted[place - 1].idx);
                } else if j < place {
                    assert(sorted[j].idx <= sorted[k - 1].idx);
                } else if j > place {
                    assert(sorted[j - 1].idx <= sorted[k - 1].idx);
                } else {
                    assert(now[k - 1].idx > idx);
                }
            }
        }
        i += 1;
    }
    proof {
        let after = event_models(events@);
        assert(after.take(i as int) =~= after);
        assert(is_stable_order(before, after));
        law_order_unique(before, after, ordered(before));
    }
}

/// `sort_events` adds, drops and repeats nothing, and changes no event. It puts smaller indexes
/// first; events with one index keep their order.
pub proof fn law_sort_events(events: &mut Vec<DebankEvent>) -> (places: Seq<int>)
    requires
        call_ensures(sort_events, (events,), ()),
    ensures
        is_rearrangement(event_models(old(events)@), event_models(final(events)@), places),
        forall|i: int, j: int|
            0 <= i < j < final(events)@.len() ==> (#[trigger] final(events)@[i]).idx <= (
            #[trigger] final(events)@[j]).idx,
{
    let before = event_models(old(events)@);
    let after = event_models(final(events)@);
    law_order_exists(before);
    assert forall|i: int, j: int| 0 <= i < j < final(events)@.len() implies (
    #[trigger] final(events)@[i]).idx <= (#[trigger] final(events)@[j]).idx by {
        assert(after[i].idx <= after[j].idx);
    }
    law_order_rearranges(before)
}

} // verus!
