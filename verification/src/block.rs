//! The trace of a whole block.
//!
//! What a node must be asked for comes in turn: the block, its receipts, its parent, and the
//! traces of its transactions. After each answer, a function here says what the block's trace is,
//! what to ask for next, or why there is no trace.

use vstd::prelude::*;

use crate::header::{build_rpc_header, is_served_header, Header, SealedHeader};
use crate::primitives::{
    bytes_equal, count_to_string, decimal_text, hex_text, word_to_string, Address, B256,
};
use crate::record::{
    event_models, trace_models, Cip64LogSplit, DebankEvent, DebankTrace, Entry, TraceEntry,
};
use crate::transaction::{
    get_deposit_nonce, get_l1_fee, pays_in_fee_currency, CeloTransactionReceipt, CeloTxEnvelope,
};

verus! {

/// The service that traces blocks on a node.
#[derive(Debug)]
pub struct CeloDebankTraceApiImpl<Eth> {
    eth: Eth,
}

impl<Eth> CeloDebankTraceApiImpl<Eth> {
    /// The node that the service asks.
    pub closed spec fn node(&self) -> Eth {
        self.eth
    }

    /// A service on a node.
    pub fn new(eth: Eth) -> (service: Self)
        ensures
            service.node() == eth,
    {
        Self { eth }
    }

    /// The node that the service asks.
    pub fn eth(&self) -> (eth: &Eth)
        ensures
            *eth == self.node(),
    {
        &self.eth
    }
}

/// Why a block has no trace.
#[derive(Clone, Debug, PartialEq, Eq)]
pub enum TraceError {
    /// The node does not know the block, its receipts or its parent.
    HeaderNotFound,
    /// What the node knows of the block does not fit together.
    EvmCustom(String),
}

/// A block, as far as its trace reads it.
#[derive(Clone, Debug, PartialEq, Eq)]
pub struct BlockSummary {
    pub header: SealedHeader,
    pub transactions: Vec<CeloTxEnvelope>,
}

/// What a block changed in the state. `changes` is missing where nothing changed.
#[derive(Clone, Debug, PartialEq, Eq)]
pub struct BlockStorageDiff<D> {
    pub hash: B256,
    pub parent_hash: B256,
    pub changes: Option<D>,
}

/// The records of a block.
#[derive(Clone, Debug, PartialEq, Eq)]
pub struct BlockFile<B, X, T> {
    pub block: B,
    pub transactions: Vec<X>,
    pub traces: Vec<DebankTrace<T>>,
    pub error_traces: Vec<DebankTrace<T>>,
    pub events: Vec<DebankEvent>,
    pub error_events: Vec<DebankEvent>,
    pub storage_contracts: Vec<Address>,
}

impl<B, X, T> BlockFile<B, X, T> {
    /// The frames and events of the file.
    pub open spec fn entry(&self) -> Entry<T> {
        Entry {
            traces: trace_models(self.traces@),
            error_traces: trace_models(self.error_traces@),
            events: event_models(self.events@),
            error_events: event_models(self.error_events@),
        }
    }
}

/// The trace of a block.
#[derive(Clone, Debug, PartialEq, Eq)]
pub struct TracedBlock<B, X, T, D, H> {
    pub block_file: BlockFile<B, X, T>,
    pub header: Header,
    pub state_diff: BlockStorageDiff<D>,
    pub validation_hash: H,
}

/// What the trace of every block holds, however it comes about: the header as the node serves it,
/// the state root behind the block, and the validation hash of the file that is served.
pub open spec fn is_trace_of<B, X, T, D, H, V>(
    output: TracedBlock<B, X, T, D, H>,
    block: BlockSummary,
    validation: &V,
) -> bool where V: Fn(&BlockFile<B, X, T>) -> H {
    &&& is_served_header(output.header, block.header)
    &&& output.state_diff.hash == block.header.state_root
    &&& call_ensures(validation, (&output.block_file,), output.validation_hash)
}

/// `validation` can be asked for the hash of any file.
pub open spec fn is_validation<B, X, T, H, V>(validation: &V) -> bool where
    V: Fn(&BlockFile<B, X, T>) -> H,
 {
    forall|file: &BlockFile<B, X, T>| call_requires(validation, (file,))
}

/// The trace of a block from its records and what it changed in the state.
pub(crate) fn assemble<B, X, T, D, H, V>(
    block: &BlockSummary,
    block_file: BlockFile<B, X, T>,
    state_diff: BlockStorageDiff<D>,
    validation: &V,
) -> (output: TracedBlock<B, X, T, D, H>) where V: Fn(&BlockFile<B, X, T>) -> H
    requires
        is_validation(validation),
    ensures
        is_trace_of(output, *block, validation),
        output.block_file == block_file,
        output.state_diff == (BlockStorageDiff { hash: block.header.state_root, ..state_diff }),
{
    let validation_hash = validation(&block_file);
    TracedBlock {
        block_file,
        header: build_rpc_header(&block.header),
        state_diff: BlockStorageDiff {
            hash: block.header.state_root,
            parent_hash: state_diff.parent_hash,
            changes: state_diff.changes,
        },
        validation_hash,
    }
}

/// The trace of one transaction, and the logs around its main execution where fee hooks ran.
pub type TraceResult<T> = (TraceEntry<T>, Option<Cip64LogSplit>);

/// What to do with a block that the node knows.
#[derive(Clone, Debug, PartialEq, Eq)]
pub enum BlockStep {
    /// The first block of the chain has no transactions to replay: its trace comes from the
    /// genesis state.
    Genesis { block: BlockSummary },
    /// Ask for the receipts of the block with this hash.
    Receipts { block: BlockSummary, at: B256 },
}

/// Decides on the node's answer for a block.
pub fn on_block(block: Option<BlockSummary>) -> (step: Result<BlockStep, TraceError>)
    ensures
        step == match block {
            None => Err::<BlockStep, TraceError>(TraceError::HeaderNotFound),
            Some(block) => if block.header.number == 0 {
                Ok(BlockStep::Genesis { block })
            } else {
                Ok(BlockStep::Receipts { block, at: block.header.hash })
            },
        },
{
    match block {
        None => Err(TraceError::HeaderNotFound),
        Some(block) => {
            if block.header.number == 0 {
                Ok(BlockStep::Genesis { block })
            } else {
                let at = block.header.hash;
                Ok(BlockStep::Receipts { block, at })
            }
        },
    }
}

/// The trace of the first block, from what the genesis state holds.
pub fn genesis_output<B, X, T, D, H, V>(
    block: &BlockSummary,
    debank_block: B,
    transactions: Vec<X>,
    traces: Vec<DebankTrace<T>>,
    storage_contracts: Vec<Address>,
    state_diff: BlockStorageDiff<D>,
    validation: &V,
) -> (output: TracedBlock<B, X, T, D, H>) where V: Fn(&BlockFile<B, X, T>) -> H
    requires
        is_validation(validation),
    ensures
        is_trace_of(output, *block, validation),
        output.block_file.block == debank_block,
        output.block_file.transactions == transactions,
        output.block_file.traces == traces,
        output.block_file.error_traces@.len() == 0,
        output.block_file.events@.len() == 0,
        output.block_file.error_events@.len() == 0,
        output.block_file.storage_contracts == storage_contracts,
        output.state_diff == (BlockStorageDiff { hash: block.header.state_root, ..state_diff }),
{
    let block_file = BlockFile {
        block: debank_block,
        transactions,
        traces,
        error_traces: Vec::new(),
        events: Vec::new(),
        error_events: Vec::new(),
        storage_contracts,
    };
    assemble(block, block_file, state_diff, validation)
}

/// What the record of a transaction takes from the receipt.
#[derive(Clone, Copy, Debug, PartialEq, Eq)]
pub struct TxFees {
    pub deposit_nonce: Option<u64>,
    pub l1_fee: Option<u128>,
}

/// What the record of a transaction takes from its receipt.
pub open spec fn tx_fees(receipt: CeloTransactionReceipt, tx: CeloTxEnvelope) -> TxFees {
    TxFees {
        deposit_nonce: receipt.deposit_nonce,
        l1_fee: if pays_in_fee_currency(tx) {
            None
        } else {
            receipt.l1_fee
        },
    }
}

/// A block with its receipts. The next question is for the parent with the hash `at`.
#[derive(Clone, Debug, PartialEq, Eq)]
pub struct ReceiptsStep {
    pub block: BlockSummary,
    pub receipts: Vec<CeloTransactionReceipt>,
    /// One for each transaction, in order.
    pub fees: Vec<TxFees>,
    pub at: B256,
}

/// The text for a number of receipts or traces that differs from that of the transactions.
pub open spec fn count_text(
    subject: Seq<char>,
    block: Seq<u8>,
    transactions: nat,
    others: nat,
    name: Seq<char>,
) -> Seq<char> {
    subject + " count mismatch for block "@ + hex_text(block) + ": "@ + decimal_text(transactions)
        + " transactions, "@ + decimal_text(others) + name
}

/// The text for a number of receipts or traces that differs from that of the transactions.
pub(crate) fn count_message(
    subject: &str,
    block: &B256,
    transactions: usize,
    others: usize,
    name: &str,
) -> (text: String)
    ensures
        text@ == count_text(subject@, block@, transactions as nat, others as nat, name@),
{
    let mut text = subject.to_string();
    text.append(" count mismatch for block ");
    text.append(word_to_string(block).as_str());
    text.append(": ");
    text.append(count_to_string(transactions).as_str());
    text.append(" transactions, ");
    text.append(count_to_string(others).as_str());
    text.append(name);
    text
}

/// Decides on the node's answer for the receipts of a block.
pub fn on_receipts(
    block: BlockSummary,
    receipts: Option<Vec<CeloTransactionReceipt>>,
) -> (step: Result<ReceiptsStep, TraceError>)
    ensures
        match receipts {
            None => step == Err::<ReceiptsStep, TraceError>(TraceError::HeaderNotFound),
            Some(receipts) => if receipts@.len() != block.transactions@.len() {
                step matches Err(TraceError::EvmCustom(text)) && text@ == count_text(
                    "transaction/receipt"@,
                    block.header.hash@,
                    block.transactions@.len(),
                    receipts@.len(),
                    " receipts"@,
                )
            } else {
                step matches Ok(step) && {
                    &&& step.block == block
                    &&& step.receipts == receipts
                    &&& step.at == block.header.parent_hash
                    &&& step.fees@ == Seq::new(
                        receipts@.len(),
                        |i: int| tx_fees(receipts@[i], block.transactions@[i]),
                    )
                }
            },
        },
{
    let receipts = match receipts {
        None => return Err(TraceError::HeaderNotFound),
        Some(receipts) => receipts,
    };
    if receipts.len() != block.transactions.len() {
        return Err(
            TraceError::EvmCustom(
                count_message(
                    "transaction/receipt",
                    &block.header.hash,
                    block.transactions.len(),
                    receipts.len(),
                    " receipts",
                ),
            ),
        );
    }
    let mut fees: Vec<TxFees> = Vec::with_capacity(receipts.len());
    let mut i: usize = 0;
    while i < receipts.len()
        invariant
            i <= receipts@.len(),
            receipts@.len() == block.transactions@.len(),
            fees@.len() == i,
            forall|j: int|
                0 <= j < i ==> #[trigger] fees@[j] == tx_fees(
                    receipts@[j],
                    block.transactions@[j],
                ),
        decreases receipts@.len() - i,
    {
        fees.push(
            TxFees {
                deposit_nonce: get_deposit_nonce(&receipts[i]),
                l1_fee: get_l1_fee(&receipts[i], &block.transactions[i]),
            },
        );
        i += 1;
    }
    assert(fees@ =~= Seq::new(
        receipts@.len(),
        |i: int| tx_fees(receipts@[i], block.transactions@[i]),
    ));
    let at = block.header.parent_hash;
    Ok(ReceiptsStep { block, receipts, fees, at })
}

/// What to do with a block whose parent is known.
#[derive(Clone, Copy, Debug, PartialEq, Eq)]
pub enum ParentStep {
    /// The block has no transactions and leaves the state as it was: there is nothing to replay.
    Unchanged,
    /// Replay the block with this hash.
    Replay { at: B256 },
}

/// Decides on the node's answer for the parent of a block: the parent's state root.
pub fn on_parent(block: &BlockSummary, parent_root: Option<B256>) -> (step: Result<
    ParentStep,
    TraceError,
>)
    ensures
        step == match parent_root {
            None => Err::<ParentStep, TraceError>(TraceError::HeaderNotFound),
            Some(parent_root) => if block.transactions@.len() == 0 && parent_root@
                == block.header.state_root@ {
                Ok(ParentStep::Unchanged)
            } else {
                Ok(ParentStep::Replay { at: block.header.hash })
            },
        },
{
    match parent_root {
        None => Err(TraceError::HeaderNotFound),
        Some(parent_root) => {
            let same_root: bool = bytes_equal(&parent_root, &block.header.state_root);
            if block.transactions.is_empty() && same_root {
                Ok(ParentStep::Unchanged)
            } else {
                Ok(ParentStep::Replay { at: block.header.hash })
            }
        },
    }
}

/// The trace of a block that leaves the state as it was.
pub fn unchanged_output<B, X, T, D, H, V>(
    block: &BlockSummary,
    parent_root: B256,
    debank_block: B,
    transactions: Vec<X>,
    validation: &V,
) -> (output: TracedBlock<B, X, T, D, H>) where V: Fn(&BlockFile<B, X, T>) -> H
    requires
        is_validation(validation),
    ensures
        is_trace_of(output, *block, validation),
        output.block_file.block == debank_block,
        output.block_file.transactions == transactions,
        output.block_file.traces@.len() == 0,
        output.block_file.error_traces@.len() == 0,
        output.block_file.events@.len() == 0,
        output.block_file.error_events@.len() == 0,
        output.block_file.storage_contracts@.len() == 0,
        output.state_diff == (BlockStorageDiff::<D> {
            hash: block.header.state_root,
            parent_hash: parent_root,
            changes: None,
        }),
{
    let block_file = BlockFile {
        block: debank_block,
        transactions,
        traces: Vec::new(),
        error_traces: Vec::new(),
        events: Vec::new(),
        error_events: Vec::new(),
        storage_contracts: Vec::new(),
    };
    let state_diff = BlockStorageDiff {
        hash: block.header.state_root,
        parent_hash: parent_root,
        changes: None,
    };
    assemble(block, block_file, state_diff, validation)
}

} // verus!
