//! What the replay of a block comes to, told from its transactions, receipts and traces.

use vstd::prelude::*;

use crate::block::{
    BlockFile, BlockStorageDiff, BlockSummary, TraceError, TraceResult, TracedBlock,
};
use crate::outcome_laws::{
    is_first_without_path, is_ordinary, law_entry_without_root_is_left_alone,
    law_ordinary_input_is_reconcilable, law_reconcilable_exactly, law_refused_only_for_a_cause,
    nothing_in_the_way, receipt_agrees, tells,
};
use crate::primitives::{decimal_text, hex_text, Address, B256};
use crate::reconcile::{reconciled, ReconcileError};
use crate::record::{
    computes_ids, entry_model, event_models, log_models, trace_models, DebankEvent, DebankTrace,
    Ids, LogModel, TraceModel,
};
use crate::replay::{log_cursor, on_traces, replay_model, try_on_traces, Replay};
use crate::step_laws::{
    carries_header, law_fee_currency_is_named, law_served_header, names_fee_currency,
};
use crate::transaction::{CeloTransactionReceipt, CeloTxEnvelope};

verus! {

/// The cursor starts at the first log of the block. Behind a receipt it is the index that the node
/// reports for the last log, and one; where it reports none, the logs are counted on from the first
/// one's. A receipt without logs leaves it where it was.
pub proof fn law_cursor_step(receipts: Seq<Seq<LogModel>>, i: int)
    requires
        0 <= i,
    ensures
        log_cursor(receipts, 0) == 0,
        ({
            let logs = receipts[i];
            let cursor = log_cursor(receipts, i);
            let next = log_cursor(receipts, i + 1);
            &&& logs.len() == 0 ==> next == cursor
            &&& logs.len() > 0 ==> match logs[logs.len() - 1].log_index {
                Some(index) => next == (index as usize) + 1,
                None => match logs[0].log_index {
                    Some(index) => next == (index as usize) + logs.len(),
                    None => next == cursor + logs.len(),
                },
            }
        }),
{
}

/// The logs of a transaction start at the index that the node reports for the first of them, else
/// at the cursor.
pub proof fn law_start_of_logs<T>(replay: Replay<T>, i: int)
    ensures
        ({
            let logs = replay.logs[i];
            let cursor = log_cursor(replay.logs, i);
            &&& logs.len() == 0 ==> replay.start(i) == cursor
            &&& logs.len() > 0 ==> match logs[0].log_index {
                Some(index) => replay.start(i) == (index as usize) as int,
                None => replay.start(i) == cursor,
            }
        }),
{
}

/// What becomes of a transaction is what its reconciliation makes of its entry, with its own logs,
/// its own split, and hidden logs exactly where it names a fee currency.
pub proof fn law_transaction_outcome<T>(replay: Replay<T>, i: int, ids: Ids<T>)
    ensures
        replay.outcome(i, ids) == reconciled(
            replay.traces[i].0,
            replay.logs[i],
            names_fee_currency(replay.transactions[i]),
            replay.start(i),
            replay.traces[i].1,
            ids,
        ),
{
    law_fee_currency_is_named(replay.transactions[i]);
}

/// Nothing speaks against a transaction: where it names a fee currency, the replay says where the
/// logs of its fee hooks are; and where it has a root, the inspector's events agree with the logs
/// between those.
pub open spec fn reconciles<T>(replay: Replay<T>, i: int) -> bool {
    let (entry, split) = replay.traces[i];
    &&& names_fee_currency(replay.transactions[i]) ==> split is Some
    &&& (exists|root: int| is_first_without_path(entry.traces + entry.error_traces, root))
        ==> receipt_agrees(entry, replay.logs[i], split)
}

/// Why a transaction is refused, as text: its fee hooks left logs that are not told apart, or its
/// entry is refused.
pub open spec fn tells_refusal<T>(
    replay: Replay<T>,
    i: int,
    ids: Ids<T>,
    text: Seq<char>,
) -> bool {
    let tx = replay.transactions[i];
    let (entry, split) = replay.traces[i];
    if names_fee_currency(tx) && split is None {
        text == "missing CIP-64 trace metadata for transaction "@ + hex_text(tx.tx_hash@)
    } else {
        exists|error: ReconcileError, told: Seq<char>|
            {
                &&& #[trigger] tells(error, told)
                &&& reconciled(
                    entry,
                    replay.logs[i],
                    names_fee_currency(tx),
                    replay.start(i),
                    split,
                    ids,
                ).1 == Some(error)
                &&& text == hex_text(tx.tx_hash@) + ": "@ + told
            }
    }
}

/// An entry has a first frame without a path, or none.
proof fn lemma_first_without_path<T>(traces: Seq<TraceModel<T>>, count: int)
    requires
        0 <= count <= traces.len(),
        !exists|root: int| is_first_without_path(traces, root),
    ensures
        forall|i: int| 0 <= i < count ==> (#[trigger] traces[i]).trace_address.len() > 0,
    decreases count,
{
    if count > 0 {
        lemma_first_without_path(traces, count - 1);
        assert(!is_first_without_path(traces, count - 1));
    }
}

/// A transaction is refused exactly where something speaks against it, and with the text for that.
pub proof fn law_transaction_refused_only_for_a_cause<T>(replay: Replay<T>, i: int, ids: Ids<T>)
    ensures
        replay.refusal(i, ids) is None <==> reconciles(replay, i),
        replay.refusal(i, ids) matches Some(text) ==> tells_refusal(replay, i, ids, text),
{
    let (entry, split) = replay.traces[i];
    let logs = replay.logs[i];
    let tx = replay.transactions[i];
    let hidden = names_fee_currency(tx);
    let all = entry.traces + entry.error_traces;
    law_fee_currency_is_named(tx);
    law_transaction_outcome(replay, i, ids);
    if exists|root: int| is_first_without_path(all, root) {
        let root = choose|root: int| is_first_without_path(all, root);
        law_refused_only_for_a_cause(entry, logs, hidden, replay.start(i), split, ids, root);
    } else {
        lemma_first_without_path(all, all.len() as int);
        law_entry_without_root_is_left_alone(entry, logs, hidden, replay.start(i), split, ids);
    }
    match replay.outcome(i, ids).1 {
        Some(error) => {
            assert(tells(error, error.text()));
        },
        None => {},
    }
}

/// A block is refused only for a cause: if nothing speaks against any of its first `count`
/// transactions, none of them is refused; and if nothing speaks against any at all, the block is
/// not refused.
pub proof fn law_block_refused_only_for_a_cause<T>(replay: Replay<T>, ids: Ids<T>, count: int)
    requires
        0 <= count <= replay.traces.len(),
    ensures
        replay.reaches(count, ids) <==> forall|i: int|
            0 <= i < count ==> #[trigger] reconciles(replay, i),
        (forall|i: int| 0 <= i < replay.traces.len() ==> #[trigger] reconciles(replay, i))
            ==> forall|text: Seq<char>| !#[trigger] replay.is_refused_with(text, ids),
        forall|text: Seq<char>| #[trigger]
            replay.is_refused_with(text, ids) ==> exists|i: int|
                {
                    &&& 0 <= i < replay.traces.len()
                    &&& !#[trigger] reconciles(replay, i)
                    &&& forall|j: int| 0 <= j < i ==> #[trigger] reconciles(replay, j)
                    &&& tells_refusal(replay, i, ids, text)
                },
{
    assert forall|i: int| #[trigger] reconciles(replay, i) <==> replay.refusal(i, ids) is None by {
        law_transaction_refused_only_for_a_cause(replay, i, ids);
    }
    if replay.reaches(count, ids) {
        assert forall|i: int| 0 <= i < count implies #[trigger] reconciles(replay, i) by {
            assert(replay.refusal(i, ids) is None);
        }
    } else {
        let i = choose|i: int| 0 <= i < count && !((#[trigger] replay.refusal(i, ids)) is None);
        assert(!reconciles(replay, i));
    }
    assert forall|text: Seq<char>| #[trigger]
        replay.is_refused_with(text, ids) implies exists|i: int|
        {
            &&& 0 <= i < replay.traces.len()
            &&& !#[trigger] reconciles(replay, i)
            &&& forall|j: int| 0 <= j < i ==> #[trigger] reconciles(replay, j)
            &&& tells_refusal(replay, i, ids, text)
        } by {
        let i = choose|i: int|
            0 <= i < replay.traces.len() && replay.reaches(i, ids) && (
            #[trigger] replay.refusal(i, ids)) == Some(text);
        law_transaction_refused_only_for_a_cause(replay, i, ids);
        assert(!reconciles(replay, i));
        assert forall|j: int| 0 <= j < i implies #[trigger] reconciles(replay, j) by {
            assert(replay.refusal(j, ids) is None);
        }
    }
}

/// The records of a block are those of its transactions, one after the other.
pub proof fn law_block_adds_up<T>(replay: Replay<T>, ids: Ids<T>, i: int)
    requires
        0 <= i,
    ensures
        ({
            let nothing = replay.gathered(0, ids);
            let before = replay.gathered(i, ids);
            let entry = replay.outcome(i, ids).0;
            let after = replay.gathered(i + 1, ids);
            &&& nothing.traces.len() == 0
            &&& nothing.error_traces.len() == 0
            &&& nothing.events.len() == 0
            &&& nothing.error_events.len() == 0
            &&& after.traces == before.traces + entry.traces
            &&& after.error_traces == before.error_traces + entry.error_traces
            &&& after.events == before.events + entry.events
            &&& after.error_events == before.error_events + entry.error_events
        }),
{
}

/// The model of a replay has the transactions, the logs of the receipts and the traces, one by one.
pub proof fn law_replay_model<T>(
    transactions: Seq<CeloTxEnvelope>,
    receipts: Seq<CeloTransactionReceipt>,
    results: Seq<TraceResult<T>>,
)
    ensures
        ({
            let replay = replay_model(transactions, receipts, results);
            &&& replay.transactions == transactions
            &&& replay.logs.len() == receipts.len()
            &&& replay.traces.len() == results.len()
            &&& forall|i: int|
                0 <= i < receipts.len() ==> #[trigger] replay.logs[i] == log_models(
                    receipts[i].logs@,
                )
            &&& forall|i: int|
                0 <= i < results.len() ==> #[trigger] replay.traces[i] == (
                    entry_model(results[i].0),
                    results[i].1,
                )
        }),
{
}

/// A block of ordinary transactions has an outcome.
pub proof fn law_ordinary_block_fits<T>(replay: Replay<T>, ids: Ids<T>)
    requires
        forall|i: int|
            0 <= i < replay.traces.len() ==> {
                &&& is_ordinary(
                    (#[trigger] replay.traces[i]).0,
                    replay.logs[i],
                    names_fee_currency(replay.transactions[i]),
                    replay.start(i),
                    replay.traces[i].1,
                )
                &&& log_cursor(replay.logs, i + 1) <= usize::MAX
            },
    ensures
        replay.fits(ids),
{
    assert forall|i: int| 0 <= i < replay.traces.len() implies #[trigger] replay.fits_at(i, ids) by {
        let trace = replay.traces[i];
        law_fee_currency_is_named(replay.transactions[i]);
        law_ordinary_input_is_reconcilable(
            trace.0,
            replay.logs[i],
            names_fee_currency(replay.transactions[i]),
            replay.start(i),
            trace.1,
            ids,
        );
    }
}

/// Nothing stands in the way of a block's trace, as far as it gets. A transaction is reached where
/// nothing speaks against those before it. Where it has the split that it needs, nothing stands in
/// the way of its reconciliation; and where nothing speaks against it, the index behind its logs
/// fits.
pub open spec fn block_can_be_traced<T>(replay: Replay<T>, ids: Ids<T>) -> bool {
    forall|i: int|
        0 <= i < replay.traces.len() && (forall|j: int|
            0 <= j < i ==> #[trigger] reconciles(replay, j)) && (names_fee_currency(
            replay.transactions[i],
        ) ==> replay.traces[i].1 is Some) ==> #[trigger] transaction_can_be_traced(replay, i, ids)
}

/// Nothing stands in the way of the reconciliation of a transaction; and where nothing speaks
/// against it, the index behind its logs fits.
pub open spec fn transaction_can_be_traced<T>(replay: Replay<T>, i: int, ids: Ids<T>) -> bool {
    let (entry, split) = replay.traces[i];
    &&& forall|root: int| #[trigger]
        is_first_without_path(entry.traces + entry.error_traces, root) ==> nothing_in_the_way(
            entry,
            replay.logs[i],
            names_fee_currency(replay.transactions[i]),
            replay.start(i),
            split,
            ids,
            root,
        )
    &&& reconciles(replay, i) && replay.logs[i].len() > 0 ==> {
        &&& replay.start(i) + replay.logs[i].len() <= usize::MAX
        &&& log_cursor(replay.logs, i + 1) <= usize::MAX
    }
}

/// The replay of a block fits exactly where nothing stands in the way of the block's trace.
pub proof fn law_block_fits_exactly<T>(replay: Replay<T>, ids: Ids<T>)
    requires
        forall|i: int|
            0 <= i < replay.traces.len() ==> (#[trigger] replay.logs[i]).len() <= usize::MAX,
    ensures
        replay.fits(ids) <==> block_can_be_traced(replay, ids),
{
    assert forall|i: int| 0 <= i < replay.traces.len() implies (#[trigger] replay.fits_at(i, ids)
        <==> ((forall|j: int| 0 <= j < i ==> #[trigger] reconciles(replay, j)) && (
    names_fee_currency(replay.transactions[i]) ==> replay.traces[i].1 is Some)
        ==> transaction_can_be_traced(replay, i, ids))) by {
        let (entry, split) = replay.traces[i];
        let logs = replay.logs[i];
        law_fee_currency_is_named(replay.transactions[i]);
        law_block_refused_only_for_a_cause(replay, ids, i);
        law_transaction_refused_only_for_a_cause(replay, i, ids);
        law_reconcilable_exactly(
            entry,
            logs,
            names_fee_currency(replay.transactions[i]),
            replay.start(i),
            split,
            ids,
        );
    }
    if replay.fits(ids) {
        assert forall|i: int|
            0 <= i < replay.traces.len() && (forall|j: int|
                0 <= j < i ==> #[trigger] reconciles(replay, j)) && (names_fee_currency(
                replay.transactions[i],
            ) ==> replay.traces[i].1 is Some) implies #[trigger] transaction_can_be_traced(
            replay,
            i,
            ids,
        ) by {
            assert(replay.fits_at(i, ids));
        }
    }
    if block_can_be_traced(replay, ids) {
        assert forall|i: int| 0 <= i < replay.traces.len() implies #[trigger] replay.fits_at(
            i,
            ids,
        ) by {
            if (forall|j: int| 0 <= j < i ==> #[trigger] reconciles(replay, j)) && (
            names_fee_currency(replay.transactions[i]) ==> replay.traces[i].1 is Some) {
                assert(transaction_can_be_traced(replay, i, ids));
            }
        }
    }
}

/// What comes of the traces of a block. Where they are not as many as the transactions, the block
/// is refused with both numbers. Else it has a trace exactly where nothing speaks against any of
/// its transactions, and is refused for the first against which something does.
///
/// The trace has the records of the transactions one after the other, what the node was asked for
/// as it is, the state roots before and behind the block, its header, and the validation hash of
/// the file that is served.
pub open spec fn is_outcome_of_traces<B, X, T, D, H, V>(
    outcome: Result<TracedBlock<B, X, T, D, H>, TraceError>,
    block: BlockSummary,
    parent_root: B256,
    receipts: Seq<CeloTransactionReceipt>,
    debank_block: B,
    transactions: Vec<X>,
    results: Seq<TraceResult<T>>,
    state_diff: BlockStorageDiff<D>,
    storage_contracts: Vec<Address>,
    validation: &V,
    ids: Ids<T>,
) -> bool where V: Fn(&BlockFile<B, X, T>) -> H {
    let replay = replay_model(block.transactions@, receipts, results);
    let n = results.len();
    if n != block.transactions@.len() {
        outcome matches Err(TraceError::EvmCustom(text)) && text@ == "transaction/trace"@
            + " count mismatch for block "@ + hex_text(block.header.hash@) + ": "@ + decimal_text(
            block.transactions@.len(),
        ) + " transactions, "@ + decimal_text(n) + " traces"@
    } else {
        &&& outcome is Ok <==> forall|i: int| 0 <= i < n ==> #[trigger] reconciles(replay, i)
        &&& match outcome {
            Ok(output) => {
                let all = replay.gathered(n as int, ids);
                &&& output.block_file.block == debank_block
                &&& output.block_file.transactions == transactions
                &&& trace_models(output.block_file.traces@) == all.traces
                &&& trace_models(output.block_file.error_traces@) == all.error_traces
                &&& event_models(output.block_file.events@) == all.events
                &&& event_models(output.block_file.error_events@) == all.error_events
                &&& output.block_file.storage_contracts == storage_contracts
                &&& output.state_diff.hash == block.header.state_root
                &&& output.state_diff.parent_hash == parent_root
                &&& output.state_diff.changes == state_diff.changes
                &&& carries_header(output.header, block.header)
                &&& call_ensures(validation, (&output.block_file,), output.validation_hash)
            },
            Err(TraceError::EvmCustom(text)) => exists|i: int|
                {
                    &&& 0 <= i < n
                    &&& !#[trigger] reconciles(replay, i)
                    &&& forall|j: int| 0 <= j < i ==> #[trigger] reconciles(replay, j)
                    &&& tells_refusal(replay, i, ids, text@)
                },
            Err(TraceError::HeaderNotFound) => false,
        }
    }
}

/// `on_traces` has the outcome of the block's traces.
pub proof fn law_on_traces<B, X, T, D, H, F, G, V>(
    block: &BlockSummary,
    parent_root: B256,
    receipts: &Vec<CeloTransactionReceipt>,
    debank_block: B,
    transactions: Vec<X>,
    results: Vec<TraceResult<T>>,
    state_diff: BlockStorageDiff<D>,
    storage_contracts: Vec<Address>,
    trace_id: &F,
    event_id: &G,
    validation: &V,
    outcome: Result<TracedBlock<B, X, T, D, H>, TraceError>,
    ids: Ids<T>,
) where
    F: Fn(&DebankTrace<T>) -> String,
    G: Fn(&DebankEvent) -> String,
    V: Fn(&BlockFile<B, X, T>) -> H,

    requires
        call_ensures(
            on_traces::<B, X, T, D, H, F, G, V>,
            (
                block,
                parent_root,
                receipts,
                debank_block,
                transactions,
                results,
                state_diff,
                storage_contracts,
                trace_id,
                event_id,
                validation,
            ),
            outcome,
        ),
        computes_ids(trace_id, event_id, ids),
    ensures
        is_outcome_of_traces(
            outcome,
            *block,
            parent_root,
            receipts@,
            debank_block,
            transactions,
            results@,
            state_diff,
            storage_contracts,
            validation,
            ids,
        ),
{
    let arguments = (
        block,
        parent_root,
        receipts,
        debank_block,
        transactions,
        results,
        state_diff,
        storage_contracts,
        trace_id,
        event_id,
        validation,
    );
    assert(computes_ids(arguments.8, arguments.9, ids));
    let replay = replay_model(block.transactions@, receipts@, results@);
    law_block_refused_only_for_a_cause(replay, ids, results@.len() as int);
    match outcome {
        Ok(output) => law_served_header(output.header, block.header),
        Err(_) => {},
    }
}

/// `try_on_traces` has an outcome exactly where the traces are not as many as the transactions, or
/// nothing stands in the way of the block's trace; and it is the outcome of the block's traces.
pub proof fn law_try_on_traces<B, X, T, D, H, F, G, V>(
    block: &BlockSummary,
    parent_root: B256,
    receipts: &Vec<CeloTransactionReceipt>,
    debank_block: B,
    transactions: Vec<X>,
    results: Vec<TraceResult<T>>,
    state_diff: BlockStorageDiff<D>,
    storage_contracts: Vec<Address>,
    trace_id: &F,
    event_id: &G,
    validation: &V,
    outcome: Option<Result<TracedBlock<B, X, T, D, H>, TraceError>>,
    ids: Ids<T>,
) where
    F: Fn(&DebankTrace<T>) -> String,
    G: Fn(&DebankEvent) -> String,
    V: Fn(&BlockFile<B, X, T>) -> H,

    requires
        call_ensures(
            try_on_traces::<B, X, T, D, H, F, G, V>,
            (
                block,
                parent_root,
                receipts,
                debank_block,
                transactions,
                results,
                state_diff,
                storage_contracts,
                trace_id,
                event_id,
                validation,
            ),
            outcome,
        ),
        computes_ids(trace_id, event_id, ids),
        receipts@.len() == block.transactions@.len(),
        forall|i: int|
            0 <= i < receipts@.len() ==> (#[trigger] receipts@[i]).logs@.len() <= usize::MAX,
    ensures
        outcome is Some <==> results@.len() != block.transactions@.len() || block_can_be_traced(
            replay_model(block.transactions@, receipts@, results@),
            ids,
        ),
        outcome matches Some(result) ==> is_outcome_of_traces(
            result,
            *block,
            parent_root,
            receipts@,
            debank_block,
            transactions,
            results@,
            state_diff,
            storage_contracts,
            validation,
            ids,
        ),
{
    let arguments = (
        block,
        parent_root,
        receipts,
        debank_block,
        transactions,
        results,
        state_diff,
        storage_contracts,
        trace_id,
        event_id,
        validation,
    );
    assert(computes_ids(arguments.8, arguments.9, ids));
    let replay = replay_model(block.transactions@, receipts@, results@);
    if results@.len() == block.transactions@.len() {
        law_block_fits_exactly(replay, ids);
    }
    law_block_refused_only_for_a_cause(replay, ids, results@.len() as int);
    match outcome {
        Some(Ok(output)) => law_served_header(output.header, block.header),
        _ => {},
    }
}

} // verus!
