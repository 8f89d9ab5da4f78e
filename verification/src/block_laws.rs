//! What holds of the trace of every block.

use vstd::prelude::*;

use crate::event::{canonical_index, matches_log};
use crate::receipt_laws::{
    indexes_grow, is_reconciled, law_event_count, law_events_follow_receipt,
    law_reverted_between_fee_logs, law_reverted_events, mirrors,
};
use crate::reconcile::{main_range, root_index};
use crate::record::{Ids, LogModel};
use crate::replay::{first_log_index, log_cursor, Replay};
use crate::transaction::pays_in_fee_currency;

verus! {

/// The number of logs in the first `count` receipts.
pub open spec fn logs_before(receipts: Seq<Seq<LogModel>>, count: int) -> nat
    decreases count,
{
    if count <= 0 {
        0
    } else {
        logs_before(receipts, count - 1) + receipts[count - 1].len()
    }
}

/// Wherever the node reports the index of a log, it is the log's place in the block.
pub open spec fn indexes_count_logs(receipts: Seq<Seq<LogModel>>) -> bool {
    forall|i: int, j: int|
        0 <= i < receipts.len() && 0 <= j < receipts[i].len() ==> match (
        #[trigger] receipts[i][j]).log_index {
            Some(index) => (index as usize) as int == logs_before(receipts, i) + j,
            None => true,
        }
}

/// The cursor over a block counts its logs, whether the node reports their indexes or not.
pub proof fn law_cursor_counts_logs(receipts: Seq<Seq<LogModel>>, count: int)
    requires
        indexes_count_logs(receipts),
        0 <= count <= receipts.len(),
    ensures
        log_cursor(receipts, count) == logs_before(receipts, count),
        count < receipts.len() ==> first_log_index(receipts[count], log_cursor(receipts, count))
            == logs_before(receipts, count),
    decreases count,
{
    if count > 0 {
        law_cursor_counts_logs(receipts, count - 1);
        let logs = receipts[count - 1];
        if logs.len() > 0 {
            assert(receipts[count - 1][logs.len() - 1] == logs.last());
        }
    }
    if count < receipts.len() && receipts[count].len() > 0 {
        assert(receipts[count][0] == receipts[count].first());
    }
}

/// Where every transaction has a root frame, and only those that pay in a fee currency have hidden
/// logs, a block that is not refused has one event for each log of its receipts.
pub proof fn law_block_event_count<T>(replay: Replay<T>, ids: Ids<T>, count: int)
    requires
        0 <= count <= replay.traces.len(),
        replay.reaches(count, ids),
        forall|i: int|
            0 <= i < count ==> {
                &&& root_index((#[trigger] replay.traces[i]).0.all_traces()) is Some
                &&& !pays_in_fee_currency(replay.transactions[i]) ==> replay.traces[i].1 is None
            },
    ensures
        replay.gathered(count, ids).events.len() == logs_before(replay.logs, count),
    decreases count,
{
    if count > 0 {
        let i = count - 1;
        let trace = replay.traces[i];
        let hidden = pays_in_fee_currency(replay.transactions[i]);
        assert(replay.refusal(i, ids) is None);
        law_block_event_count(replay, ids, i);
        assert(is_reconciled(trace.0, replay.logs[i], hidden, replay.start(i), trace.1, ids));
        law_event_count(trace.0, replay.logs[i], hidden, replay.start(i), trace.1, ids);
        if !hidden {
            assert(main_range(replay.logs[i].len(), trace.1) == Some(
                (0int, replay.logs[i].len() as int),
            ));
        }
    }
}

/// The logs of the first `count` receipts, in order.
pub open spec fn block_logs(receipts: Seq<Seq<LogModel>>, count: int) -> Seq<LogModel>
    decreases count,
{
    if count <= 0 {
        Seq::empty()
    } else {
        block_logs(receipts, count - 1) + receipts[count - 1]
    }
}

/// There are as many logs as are counted.
proof fn lemma_block_logs_len(receipts: Seq<Seq<LogModel>>, count: int)
    ensures
        block_logs(receipts, count).len() == logs_before(receipts, count),
    decreases count,
{
    if count > 0 {
        lemma_block_logs_len(receipts, count - 1);
    }
}

/// Where every transaction has a root frame, only those that pay in a fee currency have hidden
/// logs, and the indexes that the node reports count the logs, the events of a block that is not
/// refused are its logs one by one: the event at `j` has the index `j` and matches the log at `j`.
pub proof fn law_block_events_are_logs<T>(replay: Replay<T>, ids: Ids<T>, count: int)
    requires
        0 <= count <= replay.traces.len(),
        count <= replay.logs.len(),
        replay.reaches(count, ids),
        indexes_count_logs(replay.logs),
        forall|i: int|
            0 <= i < count ==> {
                &&& root_index((#[trigger] replay.traces[i]).0.all_traces()) is Some
                &&& !pays_in_fee_currency(replay.transactions[i]) ==> replay.traces[i].1 is None
            },
    ensures
        ({
            let events = replay.gathered(count, ids).events;
            let logs = block_logs(replay.logs, count);
            &&& events.len() == logs.len()
            &&& forall|j: int|
                0 <= j < events.len() ==> (#[trigger] events[j]).idx == j && matches_log(
                    events[j],
                    logs[j],
                )
        }),
    decreases count,
{
    if count > 0 {
        let i = count - 1;
        let trace = replay.traces[i];
        let hidden = pays_in_fee_currency(replay.transactions[i]);
        let start = replay.start(i);
        let own = replay.logs[i];
        assert(replay.refusal(i, ids) is None);
        law_block_events_are_logs(replay, ids, i);
        law_cursor_counts_logs(replay.logs, i);
        lemma_block_logs_len(replay.logs, i);
        assert(start == logs_before(replay.logs, i));
        assert forall|j: int| 0 <= j < own.len() implies canonical_index(
            #[trigger] own[j],
            start + j,
        ) == start + j by {
            assert(replay.logs[i][j] == own[j]);
        }
        assert(indexes_grow(own, start));
        assert(is_reconciled(trace.0, own, hidden, start, trace.1, ids));
        law_events_follow_receipt(trace.0, own, hidden, start, trace.1, ids);
        let added = replay.outcome(i, ids).0.events;
        assert(added.len() == own.len());
        assert forall|j: int| 0 <= j < added.len() implies mirrors(
            #[trigger] added[j],
            own,
            start,
            j,
        ) by {}
        let events = replay.gathered(count, ids).events;
        let logs = block_logs(replay.logs, count);
        let before = replay.gathered(i, ids).events;
        assert forall|j: int| 0 <= j < events.len() implies (#[trigger] events[j]).idx == j
            && matches_log(events[j], logs[j]) by {
            if j < before.len() {
                assert(events[j] == before[j]);
            } else {
                let k = j - before.len();
                assert(events[j] == added[k]);
                assert(mirrors(added[k], own, start, k));
                assert(logs[j] == own[k]);
            }
        }
    }
}

/// The records of a transaction stand in the block's file behind those of the transactions before
/// it, in their own order.
pub proof fn law_block_keeps_order<T>(replay: Replay<T>, ids: Ids<T>, i: int, count: int)
    requires
        0 <= i < count <= replay.traces.len(),
    ensures
        ({
            let before = replay.gathered(i, ids);
            let entry = replay.outcome(i, ids).0;
            let all = replay.gathered(count, ids);
            let upto = replay.gathered(i + 1, ids);
            &&& upto.traces.len() <= all.traces.len()
            &&& upto.error_traces.len() <= all.error_traces.len()
            &&& upto.events.len() <= all.events.len()
            &&& upto.error_events.len() <= all.error_events.len()
            &&& all.traces.subrange(before.traces.len() as int, upto.traces.len() as int)
                == entry.traces
            &&& all.error_traces.subrange(
                before.error_traces.len() as int,
                upto.error_traces.len() as int,
            ) == entry.error_traces
            &&& all.events.subrange(before.events.len() as int, upto.events.len() as int)
                == entry.events
            &&& all.error_events.subrange(
                before.error_events.len() as int,
                upto.error_events.len() as int,
            ) == entry.error_events
        }),
    decreases count,
{
    let before = replay.gathered(i, ids);
    let entry = replay.outcome(i, ids).0;
    let all = replay.gathered(count, ids);
    let upto = replay.gathered(i + 1, ids);
    if i + 1 < count {
        law_block_keeps_order(replay, ids, i, count - 1);
        let front = replay.gathered(count - 1, ids);
        assert(all.traces.subrange(before.traces.len() as int, upto.traces.len() as int)
            =~= front.traces.subrange(before.traces.len() as int, upto.traces.len() as int));
        assert(all.error_traces.subrange(
            before.error_traces.len() as int,
            upto.error_traces.len() as int,
        ) =~= front.error_traces.subrange(
            before.error_traces.len() as int,
            upto.error_traces.len() as int,
        ));
        assert(all.events.subrange(before.events.len() as int, upto.events.len() as int)
            =~= front.events.subrange(before.events.len() as int, upto.events.len() as int));
        assert(all.error_events.subrange(
            before.error_events.len() as int,
            upto.error_events.len() as int,
        ) =~= front.error_events.subrange(
            before.error_events.len() as int,
            upto.error_events.len() as int,
        ));
    } else {
        assert(all.traces.subrange(before.traces.len() as int, upto.traces.len() as int)
            =~= entry.traces);
        assert(all.error_traces.subrange(
            before.error_traces.len() as int,
            upto.error_traces.len() as int,
        ) =~= entry.error_traces);
        assert(all.events.subrange(before.events.len() as int, upto.events.len() as int)
            =~= entry.events);
        assert(all.error_events.subrange(
            before.error_events.len() as int,
            upto.error_events.len() as int,
        ) =~= entry.error_events);
    }
}

/// Where a transaction has a root frame and the indexes that the node reports count the logs, its
/// reverted events stand in a block that is not refused behind all logs of the transactions before
/// it and behind its own debit's, and not behind its credit's.
///
/// The index of the transaction's last log fits into `usize`.
pub proof fn law_block_places_reverted<T>(replay: Replay<T>, ids: Ids<T>, i: int, count: int)
    requires
        0 <= i < count <= replay.traces.len(),
        count <= replay.logs.len(),
        replay.reaches(count, ids),
        indexes_count_logs(replay.logs),
        root_index(replay.traces[i].0.all_traces()) is Some,
        replay.logs[i].len() > 0 ==> logs_before(replay.logs, i + 1) - 1 <= usize::MAX,
    ensures
        main_range(replay.logs[i].len(), replay.traces[i].1) is Some,
        ({
            let range = main_range(replay.logs[i].len(), replay.traces[i].1)->0;
            let start = logs_before(replay.logs, i);
            let from = replay.gathered(i, ids).error_events.len();
            let to = replay.gathered(i + 1, ids).error_events.len();
            let all = replay.gathered(count, ids).error_events;
            &&& to == from + replay.traces[i].0.error_events.len()
            &&& to <= all.len()
            &&& forall|k: int|
                from <= k < to ==> start + range.0 <= (#[trigger] all[k]).idx <= start + range.1
        }),
{
    let trace = replay.traces[i];
    let hidden = pays_in_fee_currency(replay.transactions[i]);
    let start = replay.start(i);
    let own = replay.logs[i];
    assert(replay.refusal(i, ids) is None);
    law_cursor_counts_logs(replay.logs, i);
    assert forall|j: int| 0 <= j < own.len() implies canonical_index(#[trigger] own[j], start + j)
        == start + j <= usize::MAX by {
        assert(replay.logs[i][j] == own[j]);
    }
    assert(is_reconciled(trace.0, own, hidden, start, trace.1, ids));
    law_reverted_between_fee_logs(trace.0, own, hidden, start, trace.1, ids);
    law_reverted_events(trace.0, own, hidden, start, trace.1, ids);
    law_block_keeps_order(replay, ids, i, count);
    let range = main_range(own.len(), trace.1)->0;
    let from = replay.gathered(i, ids).error_events.len() as int;
    let to = replay.gathered(i + 1, ids).error_events.len() as int;
    let all = replay.gathered(count, ids).error_events;
    let added = replay.outcome(i, ids).0.error_events;
    assert forall|k: int| from <= k < to implies start + range.0 <= (#[trigger] all[k]).idx <= start
        + range.1 by {
        assert(all.subrange(from, to)[k - from] == all[k]);
        assert(added[k - from] == all[k]);
    }
}

/// A refused block has one reason: no other transaction is refused before the first.
pub proof fn law_first_refusal_unique<T>(replay: Replay<T>, ids: Ids<T>, i: int, j: int)
    requires
        0 <= i,
        0 <= j,
        replay.reaches(i, ids),
        replay.reaches(j, ids),
        replay.refusal(i, ids) is Some,
        replay.refusal(j, ids) is Some,
    ensures
        i == j,
{
}

} // verus!
