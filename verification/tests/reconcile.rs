use alloy_primitives::{Address, B256};
use celo_trace::event::{event_matches_log, receipt_log_to_event};
use celo_trace::reconcile::{reconcile_receipt_events, try_reconcile, ReconcileError};
use celo_trace::record::{Cip64LogSplit, DebankEvent, DebankTrace, Log, TraceEntry};
use celo_trace::rekey::shift_root_children;

type Trace = DebankTrace<()>;

fn trace_id(trace: &Trace) -> String {
    format!("t:{}:{}:{}", trace.tx_id, trace.parent_trace_id, trace.pos_in_parent_trace)
}

fn event_id(event: &DebankEvent) -> String {
    format!("e:{}:{}", event.parent_trace_id, event.pos_in_parent_trace)
}

fn address(last: u8) -> [u8; 20] {
    Address::with_last_byte(last).into_array()
}

fn rpc_log(address: Address, selector: B256, data: &[u8], log_index: u64) -> Log {
    Log {
        address: address.into_array(),
        topics: vec![selector.0],
        data: data.to_vec(),
        log_index: Some(log_index),
    }
}

fn topic0_text(log: &Log) -> String {
    B256::from(log.topics[0]).to_string()
}

fn reconcile(
    entry: &mut TraceEntry<()>,
    logs: &[Log],
    hidden: bool,
    start: usize,
    split: Option<Cip64LogSplit>,
) -> Result<(), String> {
    reconcile_receipt_events(entry, logs, hidden, start, split, &trace_id, &event_id)
}

fn root_trace(id: &str) -> Trace {
    DebankTrace { id: id.to_string(), trace_address: vec![], ..Default::default() }
}

fn event_for(log: &Log, parent: &str) -> DebankEvent {
    DebankEvent {
        contract_id: log.address,
        selector: topic0_text(log),
        data: log.data.clone(),
        parent_trace_id: parent.to_string(),
        ..Default::default()
    }
}

#[test]
fn reconcile_receipt_events_adds_hidden_cip64_logs_once() {
    let root_id = "root".to_string();
    let root = DebankTrace { id: root_id.clone(), trace_address: vec![], ..Default::default() };

    let pre = rpc_log(Address::with_last_byte(1), B256::with_last_byte(1), b"pre", 5);
    let main = rpc_log(Address::with_last_byte(2), B256::with_last_byte(2), b"main", 6);
    let post = rpc_log(Address::with_last_byte(3), B256::with_last_byte(3), b"post", 7);

    let mut main_event = DebankEvent {
        contract_id: main.address,
        selector: topic0_text(&main),
        data: main.data.clone(),
        parent_trace_id: root_id,
        pos_in_parent_trace: 0,
        ..Default::default()
    };
    main_event.id = event_id(&main_event);

    let mut entry = (vec![root], vec![], vec![main_event], vec![]);
    reconcile(
        &mut entry,
        &[pre, main, post],
        true,
        5,
        Some(Cip64LogSplit { pre: 1, post: 1 }),
    )
    .unwrap();

    assert_eq!(entry.2.len(), 3);
    assert_eq!(entry.2.iter().map(|event| event.idx).collect::<Vec<_>>(), [5, 6, 7]);
    assert_eq!(
        entry.2.iter().map(|event| event.pos_in_parent_trace).collect::<Vec<_>>(),
        [0, 1, 2]
    );
    assert_eq!(entry.2.iter().filter(|event| event.contract_id == address(2)).count(), 1);
    assert!(entry.0[0].storage_change);
}

#[test]
fn reconcile_receipt_events_offsets_later_reverted_events() {
    let root_id = "failed-root".to_string();
    let root = DebankTrace { id: root_id.clone(), trace_address: vec![], ..Default::default() };
    let mut error_event = DebankEvent {
        parent_trace_id: root_id,
        // The inspector saw one successful main log in the preceding transaction.
        idx: 1,
        ..Default::default()
    };
    error_event.id = event_id(&error_event);

    let mut entry = (vec![], vec![root], vec![], vec![error_event]);
    // The preceding receipt held three canonical logs, so the first reverted event of this
    // transaction belongs at the insertion index 3.
    reconcile(&mut entry, &[], false, 3, None).unwrap();

    assert_eq!(entry.3[0].idx, 3);
}

#[test]
fn reconcile_receipt_events_rekeys_shifted_trace_subtree() {
    let root_id = "root".to_string();
    let root = DebankTrace { id: root_id.clone(), trace_address: vec![], ..Default::default() };
    let mut child = DebankTrace {
        tx_id: "tx".to_string(),
        parent_trace_id: root_id,
        pos_in_parent_trace: 0,
        trace_address: vec![0],
        ..Default::default()
    };
    child.id = trace_id(&child);
    let old_child_id = child.id.clone();
    let mut grandchild = DebankTrace {
        tx_id: "tx".to_string(),
        parent_trace_id: child.id.clone(),
        pos_in_parent_trace: 0,
        trace_address: vec![0, 0],
        ..Default::default()
    };
    grandchild.id = trace_id(&grandchild);
    let old_grandchild_id = grandchild.id.clone();

    let pre = rpc_log(Address::with_last_byte(1), B256::with_last_byte(1), b"pre", 0);
    let main = rpc_log(Address::with_last_byte(2), B256::with_last_byte(2), b"main", 1);
    let post = rpc_log(Address::with_last_byte(3), B256::with_last_byte(3), b"post", 2);
    let mut main_event = DebankEvent {
        contract_id: main.address,
        selector: topic0_text(&main),
        data: main.data.clone(),
        parent_trace_id: grandchild.id.clone(),
        pos_in_parent_trace: 0,
        ..Default::default()
    };
    main_event.id = event_id(&main_event);

    let mut entry = (vec![root, child, grandchild], vec![], vec![main_event], vec![]);
    reconcile(
        &mut entry,
        &[pre, main, post],
        true,
        0,
        Some(Cip64LogSplit { pre: 1, post: 1 }),
    )
    .unwrap();

    assert_eq!(entry.0[1].pos_in_parent_trace, 1);
    assert_ne!(entry.0[1].id, old_child_id);
    assert_eq!(entry.0[2].parent_trace_id, entry.0[1].id);
    assert_ne!(entry.0[2].id, old_grandchild_id);
    let main_event = entry.2.iter().find(|event| event.contract_id == address(2)).unwrap();
    assert_eq!(main_event.parent_trace_id, entry.0[2].id);
}

#[test]
fn reconcile_receipt_events_places_cip64_error_between_fee_logs() {
    let root_id = "failed-root".to_string();
    let root = DebankTrace { id: root_id.clone(), trace_address: vec![], ..Default::default() };
    let mut error_event =
        DebankEvent { parent_trace_id: root_id, pos_in_parent_trace: 0, ..Default::default() };
    error_event.id = event_id(&error_event);
    let pre = rpc_log(Address::with_last_byte(1), B256::with_last_byte(1), b"pre", 5);
    let post = rpc_log(Address::with_last_byte(2), B256::with_last_byte(2), b"post", 6);

    let mut entry = (vec![], vec![root], vec![], vec![error_event]);
    reconcile(&mut entry, &[pre, post], true, 5, Some(Cip64LogSplit { pre: 1, post: 1 })).unwrap();

    assert_eq!(entry.3[0].idx, 6);
    assert_eq!(entry.3[0].pos_in_parent_trace, 1);
    assert_eq!(
        entry.2.iter().map(|event| event.pos_in_parent_trace).collect::<Vec<_>>(),
        [0, 2]
    );
}

#[test]
fn reconcile_receipt_events_uses_split_for_duplicate_logs() {
    let root_id = "root".to_string();
    let root = DebankTrace { id: root_id.clone(), trace_address: vec![], ..Default::default() };
    let duplicate = rpc_log(Address::with_last_byte(1), B256::with_last_byte(1), b"same", 0);
    let mut main = duplicate.clone();
    main.log_index = Some(1);
    let post = rpc_log(Address::with_last_byte(2), B256::with_last_byte(2), b"post", 2);
    let mut main_event = DebankEvent {
        contract_id: main.address,
        selector: topic0_text(&main),
        data: main.data.clone(),
        parent_trace_id: root_id,
        ..Default::default()
    };
    main_event.id = event_id(&main_event);

    let mut entry = (vec![root], vec![], vec![main_event], vec![]);
    reconcile(
        &mut entry,
        &[duplicate, main, post],
        true,
        0,
        Some(Cip64LogSplit { pre: 1, post: 1 }),
    )
    .unwrap();

    let main_event = entry
        .2
        .iter()
        .find(|event| event.contract_id == address(1) && event.idx == 1)
        .unwrap();
    assert_eq!(main_event.pos_in_parent_trace, 1);
}

#[test]
fn entry_without_root_is_left_alone() {
    let mut frame = root_trace("frame");
    frame.trace_address = vec![3];
    let log = rpc_log(Address::with_last_byte(1), B256::with_last_byte(1), b"x", 9);
    let mut entry = (vec![frame.clone()], vec![], vec![], vec![]);
    reconcile(&mut entry, &[log], true, 0, Some(Cip64LogSplit { pre: 5, post: 5 })).unwrap();
    assert_eq!(entry, (vec![frame], vec![], vec![], vec![]));
}

#[test]
fn split_larger_than_receipt_is_refused() {
    let log = rpc_log(Address::with_last_byte(1), B256::with_last_byte(1), b"x", 9);
    let mut entry = (vec![root_trace("root")], vec![], vec![], vec![]);
    let text = reconcile(
        &mut entry,
        &[log.clone()],
        true,
        0,
        Some(Cip64LogSplit { pre: 0, post: 12 }),
    )
    .unwrap_err();
    assert_eq!(text, "invalid CIP-64 receipt split: 1 logs, 0 pre, 12 post");
    assert!(entry.0[0].storage_change);

    let text = reconcile(&mut entry, &[log], false, 0, Some(Cip64LogSplit { pre: 1, post: 1 }))
        .unwrap_err();
    assert_eq!(text, "invalid CIP-64 receipt split: 1 logs, 1 pre, 1 post");
}

#[test]
fn count_mismatch_is_refused() {
    let log = rpc_log(Address::with_last_byte(1), B256::with_last_byte(1), b"x", 9);
    let mut entry = (vec![root_trace("root")], vec![], vec![], vec![]);
    let text = reconcile(&mut entry, &[log.clone(), log], false, 0, None).unwrap_err();
    assert_eq!(
        text,
        "inspector/receipt main-log count mismatch: 0 inspector logs, 2 receipt logs"
    );
}

#[test]
fn mismatch_is_refused_after_the_events_before_it_are_indexed() {
    let first = rpc_log(Address::with_last_byte(1), B256::with_last_byte(1), b"x", 40);
    let second = rpc_log(Address::with_last_byte(2), B256::with_last_byte(2), b"y", 41);
    let mut other = event_for(&second, "root");
    other.data = b"z".to_vec();
    let mut entry =
        (vec![root_trace("root")], vec![], vec![event_for(&first, "root"), other], vec![]);
    let text = reconcile(&mut entry, &[first, second], false, 0, None).unwrap_err();
    assert_eq!(text, "inspector/receipt log mismatch at main-log offset 1");
    assert_eq!(entry.2[0].idx, 40);
    assert_eq!(entry.2[1].idx, 0);
}

#[test]
fn logs_without_an_index_count_from_the_start() {
    let mut first = rpc_log(Address::with_last_byte(1), B256::with_last_byte(1), b"x", 0);
    let mut second = rpc_log(Address::with_last_byte(2), B256::with_last_byte(2), b"y", 0);
    first.log_index = None;
    second.log_index = None;
    let mut entry = (
        vec![root_trace("root")],
        vec![],
        vec![event_for(&first, "root"), event_for(&second, "root")],
        vec![],
    );
    reconcile(&mut entry, &[first, second], false, 17, None).unwrap();
    assert_eq!(entry.2.iter().map(|event| event.idx).collect::<Vec<_>>(), [17, 18]);
}

#[test]
fn events_are_put_in_the_order_of_their_logs_and_equal_indexes_keep_theirs() {
    let logs = [
        rpc_log(Address::with_last_byte(1), B256::with_last_byte(1), b"a", 9),
        rpc_log(Address::with_last_byte(2), B256::with_last_byte(1), b"b", 4),
        rpc_log(Address::with_last_byte(3), B256::with_last_byte(1), b"c", 9),
        rpc_log(Address::with_last_byte(4), B256::with_last_byte(1), b"d", 4),
    ];
    let events = logs.iter().map(|log| event_for(log, "root")).collect::<Vec<_>>();
    let mut entry = (vec![root_trace("root")], vec![], events, vec![]);
    reconcile(&mut entry, &logs, false, 0, None).unwrap();
    assert_eq!(entry.2.iter().map(|event| event.contract_id[19]).collect::<Vec<_>>(), [2, 4, 1, 3]);
}

#[test]
fn reverted_events_take_the_place_of_the_next_successful_one() {
    let logs = [
        rpc_log(Address::with_last_byte(1), B256::with_last_byte(1), b"a", 20),
        rpc_log(Address::with_last_byte(2), B256::with_last_byte(1), b"b", 21),
    ];
    let mut events = logs.iter().map(|log| event_for(log, "root")).collect::<Vec<_>>();
    events[0].idx = 3;
    events[1].idx = 4;
    let reverted = [3, 4, 5]
        .iter()
        .map(|idx| DebankEvent { idx: *idx, ..Default::default() })
        .collect::<Vec<_>>();
    let mut entry = (vec![root_trace("root")], vec![], events, reverted);
    reconcile(&mut entry, &logs, false, 20, None).unwrap();
    assert_eq!(entry.3.iter().map(|event| event.idx).collect::<Vec<_>>(), [20, 21, 22]);
}

#[test]
fn reverted_event_behind_the_largest_index_saturates() {
    let log = rpc_log(Address::with_last_byte(1), B256::with_last_byte(1), b"a", u64::MAX);
    let reverted = DebankEvent { idx: 1, ..Default::default() };
    let mut entry =
        (vec![root_trace("root")], vec![], vec![event_for(&log, "root")], vec![reverted]);
    reconcile(&mut entry, &[log], false, 0, None).unwrap();
    assert_eq!(entry.3[0].idx, usize::MAX);
}

#[test]
fn hidden_logs_are_children_of_the_root_with_identifiers() {
    let pre = rpc_log(Address::with_last_byte(1), B256::with_last_byte(7), b"pre", 0);
    let post = rpc_log(Address::with_last_byte(3), B256::with_last_byte(8), b"post", 1);
    let mut child = root_trace("child");
    child.parent_trace_id = "root".to_string();
    child.trace_address = vec![0];
    let mut entry = (vec![root_trace("root"), child], vec![], vec![], vec![]);
    reconcile(&mut entry, &[pre, post], true, 0, Some(Cip64LogSplit { pre: 1, post: 1 })).unwrap();
    assert_eq!(entry.0[1].pos_in_parent_trace, 1);
    assert_eq!(entry.2[0].parent_trace_id, "root");
    assert_eq!(entry.2[0].id, "e:root:0");
    assert_eq!(entry.2[1].parent_trace_id, "root");
    assert_eq!(entry.2[1].id, "e:root:2");
    assert_eq!(entry.2[1].idx, 1);
}

#[test]
fn credit_logs_of_a_root_without_other_children_stand_behind_the_debit() {
    let pre = rpc_log(Address::with_last_byte(1), B256::with_last_byte(1), b"pre", 5);
    let post = rpc_log(Address::with_last_byte(2), B256::with_last_byte(2), b"post", 6);
    let mut entry = (vec![root_trace("root")], vec![], vec![], vec![]);
    reconcile(&mut entry, &[pre, post], true, 5, Some(Cip64LogSplit { pre: 1, post: 1 })).unwrap();
    assert_eq!(entry.2.iter().map(|event| event.idx).collect::<Vec<_>>(), [5, 6]);
    assert_eq!(
        entry.2.iter().map(|event| event.pos_in_parent_trace).collect::<Vec<_>>(),
        [0, 1]
    );
    assert_eq!(entry.2[0].id, "e:root:0");
    assert_eq!(entry.2[1].id, "e:root:1");
}

#[test]
fn credit_logs_take_one_position_after_the_other() {
    let logs = (0..5u8)
        .map(|i| rpc_log(Address::with_last_byte(i), B256::with_last_byte(i), &[i], i.into()))
        .collect::<Vec<_>>();
    let mut entry = (vec![root_trace("root")], vec![], vec![], vec![]);
    reconcile(&mut entry, &logs, true, 0, Some(Cip64LogSplit { pre: 2, post: 3 })).unwrap();
    assert_eq!(
        entry.2.iter().map(|event| event.pos_in_parent_trace).collect::<Vec<_>>(),
        [0, 1, 2, 3, 4]
    );
}

#[test]
fn what_the_inspector_saw_stands_between_debit_and_credit() {
    let logs = (0..4u8)
        .map(|i| rpc_log(Address::with_last_byte(i), B256::with_last_byte(i), &[i], i.into()))
        .collect::<Vec<_>>();
    let seen = vec![event_for(&logs[1], "root"), event_for(&logs[2], "root")];
    let mut entry = (vec![root_trace("root")], vec![], seen.clone(), vec![]);
    reconcile(&mut entry, &logs, true, 0, Some(Cip64LogSplit { pre: 1, post: 1 })).unwrap();
    for (after, before) in entry.2[1..3].iter().zip(&seen) {
        assert_eq!(after.contract_id, before.contract_id);
        assert_eq!(after.selector, before.selector);
        assert_eq!(after.topics, before.topics);
        assert_eq!(after.data, before.data);
    }
    assert_eq!(entry.2[0].contract_id, address(0));
    assert_eq!(entry.2[3].contract_id, address(3));
}

#[test]
fn events_pair_with_logs_whatever_their_indexes() {
    let pre = rpc_log(Address::with_last_byte(1), B256::with_last_byte(1), b"pre", 9);
    let main = rpc_log(Address::with_last_byte(2), B256::with_last_byte(2), b"main", 4);
    let post = rpc_log(Address::with_last_byte(3), B256::with_last_byte(3), b"post", 4);
    let mut entry =
        (vec![root_trace("root")], vec![], vec![event_for(&main, "root")], vec![]);
    let logs = [pre, main, post];
    reconcile(&mut entry, &logs, true, 0, Some(Cip64LogSplit { pre: 1, post: 1 })).unwrap();
    assert_eq!(
        entry.2.iter().map(|event| (event.contract_id, event.idx)).collect::<Vec<_>>(),
        [(address(2), 4), (address(3), 4), (address(1), 9)]
    );
    for log in &logs {
        assert_eq!(entry.2.iter().filter(|event| event_matches_log(event, log)).count(), 1);
    }
}

#[test]
fn reconciliation_that_is_not_defined_has_no_outcome() {
    let attempt = |mut entry: TraceEntry<()>, logs: &[Log], hidden, start, split| {
        try_reconcile(&mut entry, logs, hidden, start, split, &trace_id, &event_id)
    };
    let entry = || (vec![root_trace("root")], vec![], vec![], vec![]);
    let bare = Log { address: address(1), topics: vec![], data: vec![], log_index: None };
    let full = Log { topics: vec![B256::with_last_byte(1).0], ..bare.clone() };
    let split = Some(Cip64LogSplit { pre: 1, post: 0 });
    assert_eq!(attempt(entry(), &[full.clone()], true, 0, split), Some(Ok(())));
    assert_eq!(attempt(entry(), &[bare.clone()], true, 0, split), None);
    assert_eq!(attempt(entry(), &[bare.clone()], false, 0, split), Some(Ok(())));
    assert_eq!(attempt(entry(), &[full.clone()], true, usize::MAX, split), Some(Ok(())));
    let both = Some(Cip64LogSplit { pre: 1, post: 1 });
    assert_eq!(attempt(entry(), &[full.clone(), full.clone()], true, usize::MAX, both), None);

    // A child of the root has no position behind it.
    let mut far = root_trace("far");
    far.parent_trace_id = "root".to_string();
    far.trace_address = vec![0];
    far.pos_in_parent_trace = usize::MAX - 1;
    let crowded = || (vec![root_trace("root"), far.clone()], vec![], vec![], vec![]);
    assert_eq!(attempt(crowded(), &[full.clone()], true, 0, split), None);
    assert_eq!(attempt(crowded(), &[], true, 0, None), Some(Ok(())));
    // The same position elsewhere is no matter.
    far.parent_trace_id = "other".to_string();
    let elsewhere = (vec![root_trace("root"), far], vec![], vec![], vec![]);
    assert_eq!(attempt(elsewhere, &[full.clone()], true, 0, split), Some(Ok(())));

    // The comparison with a log without topics, and one that an earlier mismatch spares.
    let same = DebankEvent { contract_id: address(1), ..Default::default() };
    let other = DebankEvent { contract_id: address(2), ..Default::default() };
    let one = (vec![root_trace("root")], vec![], vec![same.clone()], vec![]);
    assert_eq!(attempt(one, &[bare.clone()], false, 0, None), None);
    let two = (vec![root_trace("root")], vec![], vec![other, same], vec![]);
    assert_eq!(
        attempt(two, &[full, bare], false, 0, None),
        Some(Err(ReconcileError::Mismatch { offset: 0 }))
    );
}

/// A root with a child, a frame below the child, and an event of each of the two.
fn subtree() -> TraceEntry<()> {
    let mut child = root_trace("");
    child.parent_trace_id = "root".to_string();
    child.trace_address = vec![0];
    child.id = trace_id(&child);
    let mut below = root_trace("");
    below.parent_trace_id = child.id.clone();
    below.trace_address = vec![0, 0];
    below.id = trace_id(&below);
    let mut event = DebankEvent { parent_trace_id: child.id.clone(), ..Default::default() };
    event.id = event_id(&event);
    let mut reverted = DebankEvent { parent_trace_id: below.id.clone(), ..Default::default() };
    reverted.id = event_id(&reverted);
    (vec![root_trace("root"), child], vec![below], vec![event], vec![reverted])
}

#[test]
fn shift_keeps_parents_and_moves_only_the_children_of_the_root() {
    let mut entry = subtree();
    entry.2.push(DebankEvent {
        parent_trace_id: "root".to_string(),
        pos_in_parent_trace: 1,
        ..Default::default()
    });
    shift_root_children(&mut entry, "root", 4, &trace_id, &event_id);
    assert_eq!(entry.0[0], root_trace("root"));
    assert_eq!(entry.0[1].parent_trace_id, entry.0[0].id);
    assert_eq!(entry.1[0].parent_trace_id, entry.0[1].id);
    assert_eq!(entry.2[0].parent_trace_id, entry.0[1].id);
    assert_eq!(entry.2[1].parent_trace_id, entry.0[0].id);
    assert_eq!(entry.3[0].parent_trace_id, entry.1[0].id);
    assert_eq!(entry.0[1].pos_in_parent_trace, 4);
    assert_eq!(entry.2[1].pos_in_parent_trace, 5);
    assert_eq!(entry.1[0].pos_in_parent_trace, 0);
    assert_eq!(entry.2[0].pos_in_parent_trace, 0);
    assert_eq!(entry.3[0].pos_in_parent_trace, 0);
}

#[test]
fn two_shifts_make_one_by_their_sum() {
    let mut twice = subtree();
    shift_root_children(&mut twice, "root", 2, &trace_id, &event_id);
    shift_root_children(&mut twice, "root", 3, &trace_id, &event_id);
    let mut once = subtree();
    shift_root_children(&mut once, "root", 5, &trace_id, &event_id);
    assert_eq!(twice, once);
    assert_eq!(once.0[1].pos_in_parent_trace, 5);
}

#[test]
fn shift_by_nothing_changes_nothing() {
    let mut entry = subtree();
    shift_root_children(&mut entry, "root", 0, &trace_id, &event_id);
    assert_eq!(entry, subtree());
}

#[test]
fn identifiers_are_those_computed_after_a_shift() {
    let mut entry = subtree();
    shift_root_children(&mut entry, "root", 2, &trace_id, &event_id);
    for trace in entry.0.iter().skip(1).chain(&entry.1) {
        assert_eq!(trace.id, trace_id(trace));
    }
    for event in entry.2.iter().chain(&entry.3) {
        assert_eq!(event.id, event_id(event));
    }
}

#[test]
fn shift_leaves_records_outside_the_root_alone() {
    let mut outside = root_trace("other");
    outside.parent_trace_id = "elsewhere".to_string();
    let event = DebankEvent {
        parent_trace_id: "other".to_string(),
        pos_in_parent_trace: 2,
        ..Default::default()
    };
    let mut entry: TraceEntry<()> =
        (vec![outside.clone()], vec![], vec![event.clone()], vec![event.clone()]);
    shift_root_children(&mut entry, "root", 4, &trace_id, &event_id);
    assert_eq!(entry, (vec![outside], vec![], vec![event.clone()], vec![event]));
}

#[test]
fn shift_follows_reverted_frames_and_events() {
    let mut child = root_trace("child");
    child.parent_trace_id = "root".to_string();
    child.pos_in_parent_trace = 1;
    let mut below = root_trace("below");
    below.parent_trace_id = "child".to_string();
    let event = DebankEvent { parent_trace_id: "below".to_string(), ..Default::default() };
    let mut entry: TraceEntry<()> = (vec![child], vec![below], vec![], vec![event]);
    shift_root_children(&mut entry, "root", 2, &trace_id, &event_id);
    assert_eq!(entry.0[0].pos_in_parent_trace, 3);
    assert_eq!(entry.0[0].id, "t::root:3");
    assert_eq!(entry.1[0].parent_trace_id, "t::root:3");
    assert_eq!(entry.1[0].id, "t::t::root:3:0");
    assert_eq!(entry.3[0].parent_trace_id, "t::t::root:3:0");
    assert_eq!(entry.3[0].id, "e:t::t::root:3:0:0");
}

#[test]
fn event_matches_the_log_it_was_made_from() {
    let log = Log {
        address: address(4),
        topics: vec![B256::with_last_byte(0xab).0, B256::with_last_byte(2).0],
        data: vec![1, 2, 3],
        log_index: None,
    };
    let event = receipt_log_to_event(&log, "root".to_string(), 6, 11);
    assert_eq!(
        event.selector,
        "0x00000000000000000000000000000000000000000000000000000000000000ab"
    );
    assert_eq!(
        event.topics,
        ["0x0000000000000000000000000000000000000000000000000000000000000002"]
    );
    assert_eq!(event.id, "");
    assert_eq!(event.pos_in_parent_trace, 6);
    assert_eq!(event.idx, 11);
    assert!(event_matches_log(&event, &log));

    let mut other = event.clone();
    other.topics[0] = "0x".to_string();
    assert!(!event_matches_log(&other, &log));
    let mut other = event.clone();
    other.topics.clear();
    assert!(!event_matches_log(&other, &log));
    let mut other = event.clone();
    other.contract_id = address(5);
    assert!(!event_matches_log(&other, &log));
    let mut other = event;
    other.selector = String::new();
    assert!(!event_matches_log(&other, &log));
}

#[test]
fn log_without_topics_differs_from_an_event_with_a_selector() {
    let log = Log { address: address(4), topics: vec![], data: vec![], log_index: None };
    let event = DebankEvent {
        contract_id: address(4),
        selector: "0x01".to_string(),
        ..Default::default()
    };
    assert!(!event_matches_log(&event, &log));
}

#[test]
fn refusals_are_written_out() {
    assert_eq!(
        ReconcileError::Split { logs: 10, pre: 205, post: 9 }.message(),
        "invalid CIP-64 receipt split: 10 logs, 205 pre, 9 post"
    );
    assert_eq!(
        ReconcileError::Mismatch { offset: 18446744073709551615 }.message(),
        "inspector/receipt log mismatch at main-log offset 18446744073709551615"
    );
}
