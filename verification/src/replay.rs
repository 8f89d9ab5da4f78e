//! The trace of a block from the replay of its transactions.

use vstd::prelude::*;

use crate::block::{
    assemble, count_message, count_text, is_trace_of, is_validation, BlockFile, BlockStorageDiff,
    BlockSummary, TraceError, TraceResult, TracedBlock,
};
use crate::event::canonical_index;
use crate::primitives::{hex_text, word_to_string, Address, B256};
use crate::reconcile::{reconcilable, reconciled, try_reconcile, ReconcileError};
use crate::record::{
    computes_ids, entry_model, is_id_scheme, log_models, Cip64LogSplit, DebankEvent,
    DebankTrace, Entry, Ids, Log, LogModel, TraceEntry,
};
use crate::transaction::{
    is_non_native_cip64, pays_in_fee_currency, CeloTransactionReceipt, CeloTxEnvelope,
};

verus! {

/// The index of the first log of a receipt: the one that the node reports, else `cursor`.
pub open spec fn first_log_index(logs: Seq<LogModel>, cursor: int) -> int {
    if logs.len() == 0 {
        cursor
    } else {
        canonical_index(logs.first(), cursor)
    }
}

/// The index behind the last log of a receipt, where `cursor` is the one behind the last log before
/// the receipt.
pub open spec fn cursor_after(logs: Seq<LogModel>, cursor: int) -> int {
    if logs.len() == 0 {
        cursor
    } else {
        match logs.last().log_index {
            Some(index) => (index as usize) + 1,
            None => first_log_index(logs, cursor) + logs.len(),
        }
    }
}

/// The index behind the last log of the first `count` receipts.
pub open spec fn log_cursor(receipts: Seq<Seq<LogModel>>, count: int) -> int
    decreases count,
{
    if count <= 0 {
        0
    } else {
        cursor_after(receipts[count - 1], log_cursor(receipts, count - 1))
    }
}

/// Why a transaction is refused, if it is. `error` is why its entry cannot be reconciled.
pub open spec fn transaction_refusal(
    tx: CeloTxEnvelope,
    split: Option<Cip64LogSplit>,
    error: Option<ReconcileError>,
) -> Option<Seq<char>> {
    if pays_in_fee_currency(tx) && split is None {
        Some("missing CIP-64 trace metadata for transaction "@ + hex_text(tx.tx_hash@))
    } else {
        match error {
            Some(error) => Some(hex_text(tx.tx_hash@) + ": "@ + error.text()),
            None => None,
        }
    }
}

/// The frames and events of two entries, those of the first in front.
pub open spec fn joined<T>(left: Entry<T>, right: Entry<T>) -> Entry<T> {
    Entry {
        traces: left.traces + right.traces,
        error_traces: left.error_traces + right.error_traces,
        events: left.events + right.events,
        error_events: left.error_events + right.error_events,
    }
}

/// The transactions of a block with the logs of their receipts and the traces of their replay.
pub struct Replay<T> {
    pub transactions: Seq<CeloTxEnvelope>,
    pub logs: Seq<Seq<LogModel>>,
    pub traces: Seq<(Entry<T>, Option<Cip64LogSplit>)>,
}

impl<T> Replay<T> {
    /// The index of the first log of a transaction.
    pub open spec fn start(self, i: int) -> int {
        first_log_index(self.logs[i], log_cursor(self.logs, i))
    }

    /// The fee hooks of a transaction ran, and the replay did not say where their logs are.
    pub open spec fn lacks_split(self, i: int) -> bool {
        pays_in_fee_currency(self.transactions[i]) && self.traces[i].1 is None
    }

    /// The entry of a transaction after its reconciliation, and why it was refused, if it was.
    pub open spec fn outcome(self, i: int, ids: Ids<T>) -> (Entry<T>, Option<ReconcileError>) {
        reconciled(
            self.traces[i].0,
            self.logs[i],
            pays_in_fee_currency(self.transactions[i]),
            self.start(i),
            self.traces[i].1,
            ids,
        )
    }

    /// Why a transaction is refused, if it is.
    pub open spec fn refusal(self, i: int, ids: Ids<T>) -> Option<Seq<char>> {
        transaction_refusal(self.transactions[i], self.traces[i].1, self.outcome(i, ids).1)
    }

    /// No transaction before `i` is refused.
    pub open spec fn reaches(self, i: int, ids: Ids<T>) -> bool {
        forall|j: int| 0 <= j < i ==> (#[trigger] self.refusal(j, ids)) is None
    }

    /// The block is refused with this text: that of the first transaction that is refused.
    pub open spec fn is_refused_with(self, text: Seq<char>, ids: Ids<T>) -> bool {
        exists|i: int|
            0 <= i < self.traces.len() && self.reaches(i, ids) && (#[trigger] self.refusal(i, ids))
                == Some(text)
    }

    /// Where a transaction is reached, it can be reconciled, and the indexes of its logs fit.
    pub open spec fn fits_at(self, i: int, ids: Ids<T>) -> bool {
        self.reaches(i, ids) && !self.lacks_split(i) ==> {
            &&& reconcilable(
                self.traces[i].0,
                self.logs[i],
                pays_in_fee_currency(self.transactions[i]),
                self.start(i),
                self.traces[i].1,
                ids,
            )
            &&& self.refusal(i, ids) is None && self.logs[i].len() > 0 ==> {
                &&& self.start(i) + self.logs[i].len() <= usize::MAX
                &&& log_cursor(self.logs, i + 1) <= usize::MAX
            }
        }
    }

    /// The first `count` transactions fit, as far as they are reached.
    pub open spec fn fits_before(self, count: int, ids: Ids<T>) -> bool {
        forall|i: int| 0 <= i < count ==> #[trigger] self.fits_at(i, ids)
    }

    /// Every transaction that is reached can be reconciled, and the indexes of its logs fit.
    pub open spec fn fits(self, ids: Ids<T>) -> bool {
        self.fits_before(self.traces.len() as int, ids)
    }

    /// The frames and events of the first `count` transactions, in order.
    pub open spec fn gathered(self, count: int, ids: Ids<T>) -> Entry<T>
        decreases count,
    {
        if count <= 0 {
            Entry {
                traces: Seq::empty(),
                error_traces: Seq::empty(),
                events: Seq::empty(),
                error_events: Seq::empty(),
            }
        } else {
            joined(self.gathered(count - 1, ids), self.outcome(count - 1, ids).0)
        }
    }
}

/// The model of a replay.
pub open spec fn replay_model<T>(
    transactions: Seq<CeloTxEnvelope>,
    receipts: Seq<CeloTransactionReceipt>,
    results: Seq<TraceResult<T>>,
) -> Replay<T> {
    Replay {
        transactions,
        logs: Seq::new(receipts.len(), |i: int| log_models(receipts[i].logs@)),
        traces: Seq::new(results.len(), |i: int| (entry_model(results[i].0), results[i].1)),
    }
}

/// The first `i` transactions fit, none of them is refused, and `entry` is what they add up to.
#[verifier::opaque]
spec fn has_gathered<T>(replay: Replay<T>, entry: Entry<T>, i: int, ids: Ids<T>) -> bool {
    &&& replay.fits_before(i, ids)
    &&& replay.reaches(i, ids)
    &&& entry == replay.gathered(i, ids)
}

/// What comes of the transaction at `i`, if it is reached: the start of the next one's logs, or why
/// it is refused, or nothing where it does not fit. `after` is what becomes of its entry.
#[verifier::opaque]
spec fn is_step<T>(
    replay: Replay<T>,
    i: int,
    step: Option<Result<usize, String>>,
    after: Entry<T>,
    ids: Ids<T>,
) -> bool {
    replay.reaches(i, ids) ==> {
        &&& step is Some == replay.fits_at(i, ids)
        &&& match step {
            None => true,
            Some(Ok(next)) => {
                &&& replay.refusal(i, ids) is None
                &&& next == log_cursor(replay.logs, i + 1)
                &&& after == replay.outcome(i, ids).0
            },
            Some(Err(text)) => replay.refusal(i, ids) == Some(text@),
        }
    }
}

/// What comes of all transactions: what they add up to, or why the first is refused that is, or
/// nothing where one that is reached does not fit.
#[verifier::opaque]
spec fn is_gather_outcome<T>(
    replay: Replay<T>,
    outcome: Option<Result<TraceEntry<T>, String>>,
    ids: Ids<T>,
) -> bool {
    &&& outcome is Some == replay.fits(ids)
    &&& match outcome {
        None => true,
        Some(Ok(entry)) => {
            &&& replay.reaches(replay.traces.len() as int, ids)
            &&& entry_model(entry) == replay.gathered(replay.traces.len() as int, ids)
        },
        Some(Err(text)) => replay.is_refused_with(text@, ids),
    }
}

/// No transaction adds up to nothing.
proof fn lemma_gather_start<T>(replay: Replay<T>, entry: Entry<T>, ids: Ids<T>)
    requires
        entry.traces.len() == 0,
        entry.error_traces.len() == 0,
        entry.events.len() == 0,
        entry.error_events.len() == 0,
    ensures
        has_gathered(replay, entry, 0, ids),
{
    reveal(has_gathered);
    assert(entry =~= replay.gathered(0, ids));
}

/// A transaction that is not refused is added.
proof fn lemma_gather_step<T>(
    replay: Replay<T>,
    entry: Entry<T>,
    i: int,
    next: usize,
    after: Entry<T>,
    ids: Ids<T>,
)
    requires
        0 <= i,
        has_gathered(replay, entry, i, ids),
        is_step(replay, i, Some(Ok::<usize, String>(next)), after, ids),
    ensures
        has_gathered(replay, joined(entry, after), i + 1, ids),
        next == log_cursor(replay.logs, i + 1),
{
    reveal(has_gathered);
    reveal(is_step);
    assert(replay.refusal(i, ids) is None);
    assert(replay.fits_at(i, ids));
}

/// A transaction that is refused is the reason: nothing behind it is reached.
proof fn lemma_gather_refused<T>(
    replay: Replay<T>,
    entry: Entry<T>,
    i: int,
    text: String,
    after: Entry<T>,
    ids: Ids<T>,
)
    requires
        0 <= i < replay.traces.len(),
        has_gathered(replay, entry, i, ids),
        is_step(replay, i, Some(Err::<usize, String>(text)), after, ids),
    ensures
        is_gather_outcome(replay, Some(Err::<TraceEntry<T>, String>(text)), ids),
{
    reveal(has_gathered);
    reveal(is_step);
    reveal(is_gather_outcome);
    assert(replay.refusal(i, ids) == Some(text@));
    assert forall|j: int| 0 <= j < replay.traces.len() implies #[trigger] replay.fits_at(
        j,
        ids,
    ) by {
        if j > i {
            assert(!replay.reaches(j, ids));
        }
    }
}

/// A transaction that is reached and does not fit leaves no outcome.
proof fn lemma_gather_unfit<T>(
    replay: Replay<T>,
    entry: Entry<T>,
    i: int,
    after: Entry<T>,
    ids: Ids<T>,
)
    requires
        0 <= i < replay.traces.len(),
        has_gathered(replay, entry, i, ids),
        is_step(replay, i, None::<Result<usize, String>>, after, ids),
    ensures
        is_gather_outcome(replay, None::<Result<TraceEntry<T>, String>>, ids),
{
    reveal(has_gathered);
    reveal(is_step);
    reveal(is_gather_outcome);
    assert(!replay.fits_at(i, ids));
}

/// What all transactions add up to is the outcome.
proof fn lemma_gather_end<T>(replay: Replay<T>, entry: TraceEntry<T>, ids: Ids<T>)
    requires
        has_gathered(replay, entry_model(entry), replay.traces.len() as int, ids),
    ensures
        is_gather_outcome(replay, Some(Ok::<TraceEntry<T>, String>(entry)), ids),
{
    reveal(has_gathered);
    reveal(is_gather_outcome);
}

/// The index of the first log of a receipt.
fn find_first_log_index(logs: &Vec<Log>, cursor: usize) -> (start: usize)
    ensures
        start == first_log_index(log_models(logs@), cursor as int),
{
    if logs.len() == 0 {
        return cursor;
    }
    assert(log_models(logs@).first() == logs@[0]@);
    match logs[0].log_index {
        Some(index) => index as usize,
        None => cursor,
    }
}

/// The index behind the last log of a receipt. Returns nothing where an index does not fit.
fn find_cursor_after(logs: &Vec<Log>, start: usize, cursor: usize) -> (next: Option<usize>)
    requires
        start == first_log_index(log_models(logs@), cursor as int),
    ensures
        match next {
            Some(next) => {
                &&& next == cursor_after(log_models(logs@), cursor as int)
                &&& logs@.len() > 0 ==> start + logs@.len() <= usize::MAX
            },
            None => logs@.len() > 0 && (start + logs@.len() > usize::MAX || cursor_after(
                log_models(logs@),
                cursor as int,
            ) > usize::MAX),
        },
{
    if logs.len() == 0 {
        return Some(cursor);
    }
    assert(log_models(logs@).last() == logs@[logs@.len() - 1]@);
    if start > usize::MAX - logs.len() {
        return None;
    }
    let fallback: usize = start + logs.len();
    match logs[logs.len() - 1].log_index {
        Some(index) => if index as usize == usize::MAX {
            None
        } else {
            Some(index as usize + 1)
        },
        None => Some(fallback),
    }
}

/// Reconciles the entry of one transaction. Returns nothing where that is not defined.
fn reconcile_transaction<T, F, G>(
    entry: &mut TraceEntry<T>,
    tx: &CeloTxEnvelope,
    logs: &Vec<Log>,
    start: usize,
    split: Option<Cip64LogSplit>,
    trace_id: &F,
    event_id: &G,
) -> (outcome: Option<Result<(), String>>) where
    F: Fn(&DebankTrace<T>) -> String,
    G: Fn(&DebankEvent) -> String,

    requires
        is_id_scheme(trace_id, event_id),
    ensures
        forall|ids: Ids<T>| #[trigger]
            computes_ids(trace_id, event_id, ids) ==> {
                let lacks_split = pays_in_fee_currency(*tx) && split is None;
                let (after, error) = reconciled(
                    entry_model(*old(entry)),
                    log_models(logs@),
                    pays_in_fee_currency(*tx),
                    start as int,
                    split,
                    ids,
                );
                &&& outcome is Some == (lacks_split || reconcilable(
                    entry_model(*old(entry)),
                    log_models(logs@),
                    pays_in_fee_currency(*tx),
                    start as int,
                    split,
                    ids,
                ))
                &&& match (outcome, transaction_refusal(*tx, split, error)) {
                    (None, _) => true,
                    (Some(Ok(())), None) => entry_model(*final(entry)) == after,
                    (Some(Err(text)), Some(refusal)) => text@ == refusal,
                    _ => false,
                }
            },
{
    let hidden: bool = is_non_native_cip64(tx);
    if hidden && split.is_none() {
        let mut text = "missing CIP-64 trace metadata for transaction ".to_string();
        text.append(word_to_string(&tx.tx_hash).as_str());
        return Some(Err(text));
    }
    match try_reconcile(entry, logs.as_slice(), hidden, start, split, trace_id, event_id) {
        None => None,
        Some(Ok(())) => Some(Ok(())),
        Some(Err(error)) => {
            let mut text = word_to_string(&tx.tx_hash);
            text.append(": ");
            text.append(error.message().as_str());
            Some(Err(text))
        },
    }
}

/// Reconciles the transaction at `i` of a block, and says where the logs of the next one start.
/// Returns nothing where the transaction does not fit.
fn replay_transaction<T, F, G>(
    entry: &mut TraceEntry<T>,
    tx: &CeloTxEnvelope,
    logs: &Vec<Log>,
    cursor: usize,
    split: Option<Cip64LogSplit>,
    trace_id: &F,
    event_id: &G,
    Ghost(replay): Ghost<Replay<T>>,
    Ghost(i): Ghost<int>,
) -> (outcome: Option<Result<usize, String>>) where
    F: Fn(&DebankTrace<T>) -> String,
    G: Fn(&DebankEvent) -> String,

    requires
        is_id_scheme(trace_id, event_id),
        0 <= i,
        replay.traces[i] == (entry_model(*old(entry)), split),
        replay.logs[i] == log_models(logs@),
        replay.transactions[i] == *tx,
        cursor == log_cursor(replay.logs, i),
    ensures
        forall|ids: Ids<T>| #[trigger]
            computes_ids(trace_id, event_id, ids) ==> is_step(
                replay,
                i,
                outcome,
                entry_model(*final(entry)),
                ids,
            ),
{
    proof {
        reveal(is_step);
        assert(log_cursor(replay.logs, i + 1) == cursor_after(replay.logs[i], cursor as int));
    }
    let start: usize = find_first_log_index(logs, cursor);
    match reconcile_transaction(entry, tx, logs, start, split, trace_id, event_id) {
        None => None,
        Some(Err(text)) => Some(Err(text)),
        Some(Ok(())) => match find_cursor_after(logs, start, cursor) {
            Some(next) => Some(Ok(next)),
            None => None,
        },
    }
}

/// Adds an entry behind what is gathered.
fn append_entry<T>(gathered: &mut TraceEntry<T>, entry: TraceEntry<T>)
    ensures
        entry_model(*final(gathered)) == joined(entry_model(*old(gathered)), entry_model(entry)),
{
    let ghost before = entry_model(*gathered);
    let ghost added = entry_model(entry);
    let (mut traces, mut error_traces, mut events, mut error_events) = entry;
    gathered.0.append(&mut traces);
    gathered.1.append(&mut error_traces);
    gathered.2.append(&mut events);
    gathered.3.append(&mut error_events);
    assert(entry_model(*gathered) =~= joined(before, added));
}

/// Reconciles every transaction of a block and gathers its frames and events in order. Returns
/// nothing where a transaction that is reached cannot be reconciled, or an index does not fit.
fn gather<T, F, G>(
    transactions: &Vec<CeloTxEnvelope>,
    receipts: &Vec<CeloTransactionReceipt>,
    results: Vec<TraceResult<T>>,
    trace_id: &F,
    event_id: &G,
) -> (outcome: Option<Result<TraceEntry<T>, String>>) where
    F: Fn(&DebankTrace<T>) -> String,
    G: Fn(&DebankEvent) -> String,

    requires
        is_id_scheme(trace_id, event_id),
        receipts@.len() == transactions@.len(),
        results@.len() == transactions@.len(),
    ensures
        forall|ids: Ids<T>| #[trigger]
            computes_ids(trace_id, event_id, ids) ==> is_gather_outcome(
                replay_model(transactions@, receipts@, results@),
                outcome,
                ids,
            ),
{
    let ghost replay = replay_model(transactions@, receipts@, results@);
    let ghost witness = choose|ids: Ids<T>| computes_ids(trace_id, event_id, ids);
    let mut gathered: TraceEntry<T> = (Vec::new(), Vec::new(), Vec::new(), Vec::new());
    let mut cursor: usize = 0;
    let mut i: usize = 0;
    let total: usize = receipts.len();
    assert forall|ids: Ids<T>| #[trigger]
        computes_ids(trace_id, event_id, ids) implies has_gathered(
        replay,
        entry_model(gathered),
        0,
        ids,
    ) by {
        lemma_gather_start(replay, entry_model(gathered), ids);
    }
    for result in iter: results.into_iter()
        invariant
            i == iter.index(),
            iter.seq() == results@,
            is_id_scheme(trace_id, event_id),
            computes_ids(trace_id, event_id, witness),
            replay == replay_model(transactions@, receipts@, results@),
            total == results@.len(),
            receipts@.len() == total,
            transactions@.len() == total,
            forall|ids: Ids<T>| #[trigger]
                computes_ids(trace_id, event_id, ids) ==> has_gathered(
                    replay,
                    entry_model(gathered),
                    i as int,
                    ids,
                ),
            cursor == log_cursor(replay.logs, i as int),
    {
        let (mut entry, split) = result;
        let ghost at = i as int;
        let ghost before = entry_model(gathered);
        assert(result == results@[at]);
        let step = replay_transaction(
            &mut entry,
            &transactions[i],
            &receipts[i].logs,
            cursor,
            split,
            trace_id,
            event_id,
            Ghost(replay),
            Ghost(at),
        );
        let ghost after = entry_model(entry);
        cursor = match step {
            Some(Ok(next)) => next,
            Some(Err(text)) => {
                assert forall|ids: Ids<T>| #[trigger]
                    computes_ids(trace_id, event_id, ids) implies is_gather_outcome(
                    replay,
                    Some(Err::<TraceEntry<T>, String>(text)),
                    ids,
                ) by {
                    lemma_gather_refused(replay, before, at, text, after, ids);
                }
                return Some(Err(text));
            },
            None => {
                assert forall|ids: Ids<T>| #[trigger]
                    computes_ids(trace_id, event_id, ids) implies is_gather_outcome(
                    replay,
                    None::<Result<TraceEntry<T>, String>>,
                    ids,
                ) by {
                    lemma_gather_unfit(replay, before, at, after, ids);
                }
                return None;
            },
        };
        append_entry(&mut gathered, entry);
        i += 1;
        proof {
            lemma_gather_step(replay, before, at, cursor, after, witness);
            assert forall|ids: Ids<T>| #[trigger]
                computes_ids(trace_id, event_id, ids) implies has_gathered(
                replay,
                entry_model(gathered),
                at + 1,
                ids,
            ) by {
                lemma_gather_step(replay, before, at, cursor, after, ids);
            }
        }
    }
    assert forall|ids: Ids<T>| #[trigger]
        computes_ids(trace_id, event_id, ids) implies is_gather_outcome(
        replay,
        Some(Ok::<TraceEntry<T>, String>(gathered)),
        ids,
    ) by {
        lemma_gather_end(replay, gathered, ids);
    }
    Some(Ok(gathered))
}

/// What comes of the traces of a block: its trace, or why it has none.
pub open spec fn is_block_outcome<B, X, T, D, H>(
    outcome: Result<TracedBlock<B, X, T, D, H>, TraceError>,
    block: BlockSummary,
    parent_root: B256,
    receipts: Seq<CeloTransactionReceipt>,
    debank_block: B,
    transactions: Vec<X>,
    results: Seq<TraceResult<T>>,
    state_diff: BlockStorageDiff<D>,
    storage_contracts: Vec<Address>,
    ids: Ids<T>,
) -> bool {
    if results.len() != block.transactions@.len() {
        outcome matches Err(TraceError::EvmCustom(text)) && text@ == count_text(
            "transaction/trace"@,
            block.header.hash@,
            block.transactions@.len(),
            results.len(),
            " traces"@,
        )
    } else {
        let replay = replay_model(block.transactions@, receipts, results);
        match outcome {
            Ok(output) => {
                &&& replay.reaches(results.len() as int, ids)
                &&& output.block_file.block == debank_block
                &&& output.block_file.transactions == transactions
                &&& output.block_file.entry() == replay.gathered(results.len() as int, ids)
                &&& output.block_file.storage_contracts == storage_contracts
                &&& output.state_diff == (BlockStorageDiff {
                    hash: block.header.state_root,
                    parent_hash: parent_root,
                    ..state_diff
                })
            },
            Err(TraceError::EvmCustom(text)) => replay.is_refused_with(text@, ids),
            Err(TraceError::HeaderNotFound) => false,
        }
    }
}

/// The traces of a block can be reconciled with its receipts, as far as they are reached.
pub open spec fn is_traceable<T>(
    block: BlockSummary,
    receipts: Seq<CeloTransactionReceipt>,
    results: Seq<TraceResult<T>>,
    ids: Ids<T>,
) -> bool {
    results.len() == block.transactions@.len() ==> replay_model(
        block.transactions@,
        receipts,
        results,
    ).fits(ids)
}

/// The trace of a block from the replay of its transactions. `state_diff` and `storage_contracts`
/// are what the replay changed.
///
/// Returns nothing where the traces cannot be reconciled with the receipts: a hidden log has no
/// topic, say, or an index does not fit into `usize`.
pub fn try_on_traces<B, X, T, D, H, F, G, V>(
    block: &BlockSummary,
    parent_root: B256,
    receipts: &Vec<CeloTransactionReceipt>,
    debank_block: B,
    transactions: Vec<X>,
    results: Vec<TraceResult<T>>,
    state_diff: BlockStorageDiff<D>,
    storage_contracts: Vec<Address>,
    trace_id: &F,
    event_id: &G,
    validation: &V,
) -> (outcome: Option<Result<TracedBlock<B, X, T, D, H>, TraceError>>) where
    F: Fn(&DebankTrace<T>) -> String,
    G: Fn(&DebankEvent) -> String,
    V: Fn(&BlockFile<B, X, T>) -> H,

    requires
        is_id_scheme(trace_id, event_id),
        is_validation(validation),
        receipts@.len() == block.transactions@.len(),
    ensures
        forall|ids: Ids<T>| #[trigger]
            computes_ids(trace_id, event_id, ids) ==> {
                &&& outcome is Some == is_traceable(*block, receipts@, results@, ids)
                &&& outcome is Some ==> is_block_outcome(
                    outcome->0,
                    *block,
                    parent_root,
                    receipts@,
                    debank_block,
                    transactions,
                    results@,
                    state_diff,
                    storage_contracts,
                    ids,
                )
            },
        outcome matches Some(Ok(output)) ==> is_trace_of(output, *block, validation),
{
    if results.len() != block.transactions.len() {
        return Some(
            Err(
                TraceError::EvmCustom(
                    count_message(
                        "transaction/trace",
                        &block.header.hash,
                        block.transactions.len(),
                        results.len(),
                        " traces",
                    ),
                ),
            ),
        );
    }
    let gathered = gather(&block.transactions, receipts, results, trace_id, event_id);
    proof {
        reveal(is_gather_outcome);
    }
    match gathered {
        None => None,
        Some(Err(text)) => Some(Err(TraceError::EvmCustom(text))),
        Some(Ok(entry)) => {
            let (traces, error_traces, events, error_events) = entry;
            let block_file = BlockFile {
                block: debank_block,
                transactions,
                traces,
                error_traces,
                events,
                error_events,
                storage_contracts,
            };
            let state_diff = BlockStorageDiff {
                hash: block.header.state_root,
                parent_hash: parent_root,
                changes: state_diff.changes,
            };
            Some(Ok(assemble(block, block_file, state_diff, validation)))
        },
    }
}

/// The trace of a block whose traces can be reconciled with its receipts, from the replay of its
/// transactions. `state_diff` and `storage_contracts` are what the replay changed.
pub fn on_traces<B, X, T, D, H, F, G, V>(
    block: &BlockSummary,
    parent_root: B256,
    receipts: &Vec<CeloTransactionReceipt>,
    debank_block: B,
    transactions: Vec<X>,
    results: Vec<TraceResult<T>>,
    state_diff: BlockStorageDiff<D>,
    storage_contracts: Vec<Address>,
    trace_id: &F,
    event_id: &G,
    validation: &V,
) -> (outcome: Result<TracedBlock<B, X, T, D, H>, TraceError>) where
    F: Fn(&DebankTrace<T>) -> String,
    G: Fn(&DebankEvent) -> String,
    V: Fn(&BlockFile<B, X, T>) -> H,

    requires
        is_id_scheme(trace_id, event_id),
        is_validation(validation),
        receipts@.len() == block.transactions@.len(),
        forall|ids: Ids<T>| #[trigger]
            computes_ids(trace_id, event_id, ids) ==> is_traceable(
                *block,
                receipts@,
                results@,
                ids,
            ),
    ensures
        forall|ids: Ids<T>| #[trigger]
            computes_ids(trace_id, event_id, ids) ==> is_block_outcome(
                outcome,
                *block,
                parent_root,
                receipts@,
                debank_block,
                transactions,
                results@,
                state_diff,
                storage_contracts,
                ids,
            ),
        outcome matches Ok(output) ==> is_trace_of(output, *block, validation),
{
    let outcome = try_on_traces(
        block,
        parent_root,
        receipts,
        debank_block,
        transactions,
        results,
        state_diff,
        storage_contracts,
        trace_id,
        event_id,
        validation,
    );
    proof {
        let ids = choose|ids: Ids<T>| computes_ids(trace_id, event_id, ids);
        assert(computes_ids(trace_id, event_id, ids));
    }
    outcome.unwrap()
}

} // verus!
