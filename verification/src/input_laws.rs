//! Which input the functions of the library accept.

use vstd::prelude::*;

use crate::block::{
    genesis_output, is_validation, on_block, on_parent, on_receipts, unchanged_output, BlockFile,
    BlockStorageDiff, BlockSummary, CeloDebankTraceApiImpl, TraceResult,
};
use crate::event::{comparable, event_matches_log, is_comparable, receipt_log_to_event};
use crate::header::{build_rpc_header, SealedHeader};
use crate::order::sort_events;
use crate::outcome_laws::{
    is_first_without_path, is_ordinary, law_ordinary_input_is_reconcilable,
    law_reconcilable_exactly, nothing_in_the_way,
};
use crate::primitives::{bytes_equal, count_to_string, Address, B256};
use crate::reconcile::{
    reconcilable, reconcile_receipt_events, try_reconcile, ReconcileError,
};
use crate::record::{
    computes_ids, entry_model, is_id_scheme, log_models, Cip64LogSplit, DebankEvent, DebankTrace,
    Ids, Log, TraceEntry,
};
use crate::rekey::{does_shift_fit, shift_fits, shift_root_children};
use crate::replay::{is_traceable, log_cursor, on_traces, replay_model, try_on_traces};
use crate::replay_laws::{
    block_can_be_traced, law_block_fits_exactly, law_ordinary_block_fits,
};
use crate::step_laws::names_fee_currency;
use crate::transaction::{
    get_deposit_nonce, get_l1_fee, is_non_native_cip64, CeloTransactionReceipt, CeloTxEnvelope,
};

verus! {

/// The steps of a block and what they read of transactions, receipts and headers accept anything.
pub proof fn law_steps_accept_anything(
    block: Option<BlockSummary>,
    known: BlockSummary,
    receipts: Option<Vec<CeloTransactionReceipt>>,
    parent_root: Option<B256>,
    header: &SealedHeader,
    receipt: &CeloTransactionReceipt,
    tx: &CeloTxEnvelope,
)
    ensures
        call_requires(on_block, (block,)),
        call_requires(on_receipts, (known, receipts)),
        call_requires(on_parent, (&known, parent_root)),
        call_requires(build_rpc_header, (header,)),
        call_requires(get_deposit_nonce, (receipt,)),
        call_requires(get_l1_fee, (receipt, tx)),
        call_requires(is_non_native_cip64, (tx,)),
{
}

/// Texts, comparisons of bytes, the order of events and the test for a shift accept anything.
pub proof fn law_tools_accept_anything<T>(
    count: usize,
    left: &[u8],
    right: &[u8],
    event: &DebankEvent,
    log: &Log,
    error: &ReconcileError,
    events: &mut Vec<DebankEvent>,
    entry: &TraceEntry<T>,
    root_id: &String,
    shift: usize,
)
    ensures
        call_requires(count_to_string, (count,)),
        call_requires(bytes_equal, (left, right)),
        call_requires(is_comparable, (event, log)),
        call_requires(ReconcileError::message, (error,)),
        call_requires(sort_events, (events,)),
        call_requires(does_shift_fit::<T>, (entry, root_id, shift)),
{
}

/// A service can be made for any node.
pub proof fn law_any_node_can_be_served<Eth>(eth: Eth, service: &CeloDebankTraceApiImpl<Eth>)
    ensures
        call_requires(CeloDebankTraceApiImpl::<Eth>::new, (eth,)),
        call_requires(CeloDebankTraceApiImpl::<Eth>::eth, (service,)),
{
}

/// An event can be compared with every log that has a topic, and with one that has none where their
/// emitters differ or the event has a selector.
pub proof fn law_logs_with_topics_are_compared(event: &DebankEvent, log: &Log)
    requires
        log.topics@.len() > 0 || event.contract_id@ != log.address@ || event.selector@.len() > 0,
    ensures
        call_requires(event_matches_log, (event, log)),
        comparable(event@, log@),
{
}

/// `is_comparable` holds exactly where an event can be compared with a log.
pub proof fn law_is_comparable(event: &DebankEvent, log: &Log, defined: bool)
    requires
        call_ensures(is_comparable, (event, log), defined),
    ensures
        defined <==> log.topics@.len() > 0 || event.contract_id@ != log.address@
            || event.selector@.len() > 0,
{
}

/// A log without topics matches no event that it can be compared with.
pub proof fn law_log_without_topics_matches_nothing(event: &DebankEvent, log: &Log, matched: bool)
    requires
        log.topics@.len() == 0,
        event.contract_id@ != log.address@ || event.selector@.len() > 0,
        call_ensures(event_matches_log, (event, log), matched),
    ensures
        !matched,
{
}

/// An event can be made for every log that has a topic.
pub proof fn law_logs_with_topics_become_events(
    log: &Log,
    parent_trace_id: String,
    pos_in_parent_trace: usize,
    fallback_index: usize,
)
    requires
        log.topics@.len() > 0,
    ensures
        call_requires(
            receipt_log_to_event,
            (log, parent_trace_id, pos_in_parent_trace, fallback_index),
        ),
{
}

/// The positions of the root's children among the frames and events leave room for the shift.
pub open spec fn children_can_move<T>(
    entry: TraceEntry<T>,
    root_id: Seq<char>,
    shift: int,
) -> bool {
    &&& forall|i: int|
        0 <= i < entry.0@.len() && (#[trigger] entry.0@[i]).parent_trace_id@ == root_id
            ==> entry.0@[i].pos_in_parent_trace + shift <= usize::MAX
    &&& forall|i: int|
        0 <= i < entry.1@.len() && (#[trigger] entry.1@[i]).parent_trace_id@ == root_id
            ==> entry.1@[i].pos_in_parent_trace + shift <= usize::MAX
    &&& forall|i: int|
        0 <= i < entry.2@.len() && (#[trigger] entry.2@[i]).parent_trace_id@ == root_id
            ==> entry.2@[i].pos_in_parent_trace + shift <= usize::MAX
    &&& forall|i: int|
        0 <= i < entry.3@.len() && (#[trigger] entry.3@[i]).parent_trace_id@ == root_id
            ==> entry.3@[i].pos_in_parent_trace + shift <= usize::MAX
}

/// The shift fits exactly where the children can move.
proof fn lemma_children_can_move<T>(entry: TraceEntry<T>, root_id: Seq<char>, shift: int)
    ensures
        shift_fits(entry_model(entry), root_id, shift) <==> children_can_move(
            entry,
            root_id,
            shift,
        ),
{
    let model = entry_model(entry);
    assert(forall|i: int| 0 <= i < entry.0@.len() ==> #[trigger] model.traces[i] == entry.0@[i]@);
    assert(forall|i: int|
        0 <= i < entry.1@.len() ==> #[trigger] model.error_traces[i] == entry.1@[i]@);
    assert(forall|i: int| 0 <= i < entry.2@.len() ==> #[trigger] model.events[i] == entry.2@[i]@);
    assert(forall|i: int|
        0 <= i < entry.3@.len() ==> #[trigger] model.error_events[i] == entry.3@[i]@);
    if shift_fits(model, root_id, shift) {
        assert forall|i: int|
            0 <= i < entry.0@.len() && (#[trigger] entry.0@[i]).parent_trace_id@
                == root_id implies entry.0@[i].pos_in_parent_trace + shift <= usize::MAX by {
            assert(model.traces[i] == entry.0@[i]@);
        }
        assert forall|i: int|
            0 <= i < entry.1@.len() && (#[trigger] entry.1@[i]).parent_trace_id@
                == root_id implies entry.1@[i].pos_in_parent_trace + shift <= usize::MAX by {
            assert(model.error_traces[i] == entry.1@[i]@);
        }
        assert forall|i: int|
            0 <= i < entry.2@.len() && (#[trigger] entry.2@[i]).parent_trace_id@
                == root_id implies entry.2@[i].pos_in_parent_trace + shift <= usize::MAX by {
            assert(model.events[i] == entry.2@[i]@);
        }
        assert forall|i: int|
            0 <= i < entry.3@.len() && (#[trigger] entry.3@[i]).parent_trace_id@
                == root_id implies entry.3@[i].pos_in_parent_trace + shift <= usize::MAX by {
            assert(model.error_events[i] == entry.3@[i]@);
        }
    }
}

/// `does_shift_fit` holds exactly where the children of the root can move.
pub proof fn law_does_shift_fit<T>(
    entry: &TraceEntry<T>,
    root_id: &String,
    shift: usize,
    fit: bool,
)
    requires
        call_ensures(does_shift_fit::<T>, (entry, root_id, shift), fit),
    ensures
        fit <==> children_can_move(*entry, root_id@, shift as int),
{
    lemma_children_can_move(*entry, root_id@, shift as int);
}

/// The children of a root can be moved wherever their positions leave room.
pub proof fn law_children_can_be_moved<T, F, G>(
    entry: &mut TraceEntry<T>,
    root_id: &str,
    shift: usize,
    trace_id: &F,
    event_id: &G,
) where F: Fn(&DebankTrace<T>) -> String, G: Fn(&DebankEvent) -> String
    requires
        is_id_scheme(trace_id, event_id),
        children_can_move(*old(entry), root_id@, shift as int),
    ensures
        call_requires(
            shift_root_children::<T, F, G>,
            (entry, root_id, shift, trace_id, event_id),
        ),
{
    lemma_children_can_move(*old(entry), root_id@, shift as int);
}

/// A reconciliation can be tried on anything. It can be made on ordinary input, and wherever
/// nothing stands in its way.
pub proof fn law_reconciliation_accepts_ordinary_input<T, F, G>(
    entry: &mut TraceEntry<T>,
    receipt_logs: &[Log],
    hidden_storage_change: bool,
    canonical_log_start: usize,
    split: Option<Cip64LogSplit>,
    trace_id: &F,
    event_id: &G,
) where F: Fn(&DebankTrace<T>) -> String, G: Fn(&DebankEvent) -> String
    requires
        is_id_scheme(trace_id, event_id),
    ensures
        call_requires(
            try_reconcile::<T, F, G>,
            (
                entry,
                receipt_logs,
                hidden_storage_change,
                canonical_log_start,
                split,
                trace_id,
                event_id,
            ),
        ),
        is_ordinary(
            entry_model(*old(entry)),
            log_models(receipt_logs@),
            hidden_storage_change,
            canonical_log_start as int,
            split,
        ) ==> call_requires(
            reconcile_receipt_events::<T, F, G>,
            (
                entry,
                receipt_logs,
                hidden_storage_change,
                canonical_log_start,
                split,
                trace_id,
                event_id,
            ),
        ),
        receipt_logs@.len() <= usize::MAX && (forall|ids: Ids<T>, root: int|
            #[trigger] computes_ids(trace_id, event_id, ids) && #[trigger] is_first_without_path(
                entry_model(*old(entry)).traces + entry_model(*old(entry)).error_traces,
                root,
            ) ==> nothing_in_the_way(
                entry_model(*old(entry)),
                log_models(receipt_logs@),
                hidden_storage_change,
                canonical_log_start as int,
                split,
                ids,
                root,
            )) ==> call_requires(
            reconcile_receipt_events::<T, F, G>,
            (
                entry,
                receipt_logs,
                hidden_storage_change,
                canonical_log_start,
                split,
                trace_id,
                event_id,
            ),
        ),
{
    let before = entry_model(*old(entry));
    if receipt_logs@.len() <= usize::MAX && (forall|ids: Ids<T>, root: int|
        #[trigger] computes_ids(trace_id, event_id, ids) && #[trigger] is_first_without_path(
            before.traces + before.error_traces,
            root,
        ) ==> nothing_in_the_way(
            before,
            log_models(receipt_logs@),
            hidden_storage_change,
            canonical_log_start as int,
            split,
            ids,
            root,
        )) {
        assert forall|ids: Ids<T>| #[trigger]
            computes_ids(trace_id, event_id, ids) implies reconcilable(
            before,
            log_models(receipt_logs@),
            hidden_storage_change,
            canonical_log_start as int,
            split,
            ids,
        ) by {
            law_reconcilable_exactly(
                before,
                log_models(receipt_logs@),
                hidden_storage_change,
                canonical_log_start as int,
                split,
                ids,
            );
        }
    }
    if is_ordinary(
        entry_model(*old(entry)),
        log_models(receipt_logs@),
        hidden_storage_change,
        canonical_log_start as int,
        split,
    ) {
        assert forall|ids: Ids<T>| #[trigger]
            computes_ids(trace_id, event_id, ids) implies reconcilable(
            entry_model(*old(entry)),
            log_models(receipt_logs@),
            hidden_storage_change,
            canonical_log_start as int,
            split,
            ids,
        ) by {
            law_ordinary_input_is_reconcilable(
                entry_model(*old(entry)),
                log_models(receipt_logs@),
                hidden_storage_change,
                canonical_log_start as int,
                split,
                ids,
            );
        }
    }
}

/// A function that can be asked for the hash of any file validates files.
pub proof fn law_validation<B, X, T, H, V>(validation: &V) where V: Fn(&BlockFile<B, X, T>) -> H
    requires
        forall|file: &BlockFile<B, X, T>| call_requires(validation, (file,)),
    ensures
        is_validation::<B, X, T, H, V>(validation),
{
}

/// The output for the first block and for a block without changes can be made of anything.
pub proof fn law_outputs_accept_anything<B, X, T, D, H, V>(
    block: &BlockSummary,
    parent_root: B256,
    debank_block: B,
    transactions: Vec<X>,
    traces: Vec<DebankTrace<T>>,
    storage_contracts: Vec<Address>,
    state_diff: BlockStorageDiff<D>,
    validation: &V,
) where V: Fn(&BlockFile<B, X, T>) -> H
    requires
        is_validation(validation),
    ensures
        call_requires(
            genesis_output::<B, X, T, D, H, V>,
            (
                block,
                debank_block,
                transactions,
                traces,
                storage_contracts,
                state_diff,
                validation,
            ),
        ),
        call_requires(
            unchanged_output::<B, X, T, D, H, V>,
            (block, parent_root, debank_block, transactions, validation),
        ),
{
}

/// The traces of a block with a receipt for each transaction can be tried. They are accepted where
/// the transactions are ordinary, wherever nothing stands in the way of the block's trace, and
/// where they are not as many as the transactions.
pub proof fn law_traces_of_ordinary_transactions_are_accepted<B, X, T, D, H, F, G, V>(
    block: &BlockSummary,
    parent_root: B256,
    receipts: &Vec<CeloTransactionReceipt>,
    debank_block: B,
    transactions: Vec<X>,
    results: Vec<TraceResult<T>>,
    state_diff: BlockStorageDiff<D>,
    storage_contracts: Vec<Address>,
    trace_id: &F,
    event_id: &G,
    validation: &V,
) where
    F: Fn(&DebankTrace<T>) -> String,
    G: Fn(&DebankEvent) -> String,
    V: Fn(&BlockFile<B, X, T>) -> H,

    requires
        is_id_scheme(trace_id, event_id),
        is_validation(validation),
        receipts@.len() == block.transactions@.len(),
    ensures
        call_requires(
            try_on_traces::<B, X, T, D, H, F, G, V>,
            (
                block,
                parent_root,
                receipts,
                debank_block,
                transactions,
                results,
                state_diff,
                storage_contracts,
                trace_id,
                event_id,
                validation,
            ),
        ),
        ({
            let replay = replay_model(block.transactions@, receipts@, results@);
            forall|i: int|
                0 <= i < replay.traces.len() ==> {
                    &&& is_ordinary(
                        (#[trigger] replay.traces[i]).0,
                        replay.logs[i],
                        names_fee_currency(replay.transactions[i]),
                        replay.start(i),
                        replay.traces[i].1,
                    )
                    &&& log_cursor(replay.logs, i + 1) <= usize::MAX
                }
        }) ==> call_requires(
            on_traces::<B, X, T, D, H, F, G, V>,
            (
                block,
                parent_root,
                receipts,
                debank_block,
                transactions,
                results,
                state_diff,
                storage_contracts,
                trace_id,
                event_id,
                validation,
            ),
        ),
        results@.len() != block.transactions@.len() || (forall|i: int|
            0 <= i < receipts@.len() ==> (#[trigger] receipts@[i]).logs@.len() <= usize::MAX) && (
        forall|ids: Ids<T>| #[trigger]
            computes_ids(trace_id, event_id, ids) ==> block_can_be_traced(
                replay_model(block.transactions@, receipts@, results@),
                ids,
            )) ==> call_requires(
            on_traces::<B, X, T, D, H, F, G, V>,
            (
                block,
                parent_root,
                receipts,
                debank_block,
                transactions,
                results,
                state_diff,
                storage_contracts,
                trace_id,
                event_id,
                validation,
            ),
        ),
{
    if results@.len() == block.transactions@.len() && (forall|i: int|
        0 <= i < receipts@.len() ==> (#[trigger] receipts@[i]).logs@.len() <= usize::MAX) && (
    forall|ids: Ids<T>| #[trigger]
        computes_ids(trace_id, event_id, ids) ==> block_can_be_traced(
            replay_model(block.transactions@, receipts@, results@),
            ids,
        )) {
        assert forall|ids: Ids<T>| #[trigger]
            computes_ids(trace_id, event_id, ids) implies is_traceable(
            *block,
            receipts@,
            results@,
            ids,
        ) by {
            law_block_fits_exactly(
                replay_model(block.transactions@, receipts@, results@),
                ids,
            );
        }
    }
    let replay = replay_model(block.transactions@, receipts@, results@);
    if forall|i: int|
        0 <= i < replay.traces.len() ==> {
            &&& is_ordinary(
                (#[trigger] replay.traces[i]).0,
                replay.logs[i],
                names_fee_currency(replay.transactions[i]),
                replay.start(i),
                replay.traces[i].1,
            )
            &&& log_cursor(replay.logs, i + 1) <= usize::MAX
        } {
        assert forall|ids: Ids<T>| #[trigger]
            computes_ids(trace_id, event_id, ids) implies is_traceable(
            *block,
            receipts@,
            results@,
            ids,
        ) by {
            law_ordinary_block_fits(replay, ids);
        }
    }
}

} // verus!
