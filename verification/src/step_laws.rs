//! What each step towards a block's trace does, told from the fields of blocks, transactions and
//! receipts.

use vstd::prelude::*;

use crate::block::{
    genesis_output, on_block, on_parent, on_receipts, tx_fees, unchanged_output, BlockFile,
    BlockStep, BlockStorageDiff, BlockSummary, CeloDebankTraceApiImpl, ParentStep, ReceiptsStep,
    TraceError, TracedBlock,
};
use crate::header::{build_rpc_header, is_served_header, Header, SealedHeader};
use crate::primitives::{decimal_text, hex_text, Address, B256};
use crate::record::DebankTrace;
use crate::transaction::{
    get_deposit_nonce, get_l1_fee, is_non_native_cip64, pays_in_fee_currency,
    CeloTransactionReceipt, CeloTxEnvelope, CeloTxKind,
};

verus! {

/// The transaction is of the type that may name a fee currency, and names one whose address has a
/// byte other than zero.
pub open spec fn names_fee_currency(tx: CeloTxEnvelope) -> bool {
    match tx.kind {
        CeloTxKind::Cip64 { fee_currency: Some(currency) } => exists|k: int|
            0 <= k < 20 && #[trigger] currency@[k] != 0,
        _ => false,
    }
}

/// A transaction pays in a fee currency exactly where it names one.
pub proof fn law_fee_currency_is_named(tx: CeloTxEnvelope)
    ensures
        pays_in_fee_currency(tx) <==> names_fee_currency(tx),
{
    match tx.kind {
        CeloTxKind::Cip64 { fee_currency: Some(currency) } => {
            let zero = Seq::new(20, |i: int| 0u8);
            if !names_fee_currency(tx) {
                assert(currency@ =~= zero);
            } else {
                let k = choose|k: int| 0 <= k < 20 && #[trigger] currency@[k] != 0;
                assert(zero[k] == 0);
            }
        },
        _ => {},
    }
}

/// `is_non_native_cip64` holds of the transactions that name a fee currency.
pub proof fn law_is_non_native_cip64(tx: &CeloTxEnvelope, non_native: bool)
    requires
        call_ensures(is_non_native_cip64, (tx,), non_native),
    ensures
        non_native <==> names_fee_currency(*tx),
{
    law_fee_currency_is_named(*tx);
}

/// `get_deposit_nonce` hands on the receipt's nonce.
pub proof fn law_get_deposit_nonce(receipt: &CeloTransactionReceipt, nonce: Option<u64>)
    requires
        call_ensures(get_deposit_nonce, (receipt,), nonce),
    ensures
        nonce == receipt.deposit_nonce,
{
}

/// `get_l1_fee` hands on the receipt's fee, whatever else the receipt holds, but for a transaction
/// that names a fee currency: for that there is none.
pub proof fn law_get_l1_fee(
    receipt: &CeloTransactionReceipt,
    tx: &CeloTxEnvelope,
    fee: Option<u128>,
)
    requires
        call_ensures(get_l1_fee, (receipt, tx), fee),
    ensures
        names_fee_currency(*tx) ==> fee is None,
        !names_fee_currency(*tx) ==> fee == receipt.l1_fee,
{
    law_fee_currency_is_named(*tx);
}

/// What the record of a transaction takes from its receipt: always the nonce, and the fee for the
/// data on the first layer unless the transaction names a fee currency.
pub proof fn law_tx_fees(receipt: CeloTransactionReceipt, tx: CeloTxEnvelope)
    ensures
        tx_fees(receipt, tx).deposit_nonce == receipt.deposit_nonce,
        names_fee_currency(tx) ==> tx_fees(receipt, tx).l1_fee is None,
        !names_fee_currency(tx) ==> tx_fees(receipt, tx).l1_fee == receipt.l1_fee,
{
    law_fee_currency_is_named(tx);
}

/// `on_block` finds no trace for a block that the node does not know, takes the first block from
/// genesis, and asks for the receipts of any other by its own hash.
pub proof fn law_on_block(block: Option<BlockSummary>, step: Result<BlockStep, TraceError>)
    requires
        call_ensures(on_block, (block,), step),
    ensures
        block is None ==> step == Err::<BlockStep, TraceError>(TraceError::HeaderNotFound),
        block matches Some(known) && known.header.number == 0 ==> step == Ok::<
            BlockStep,
            TraceError,
        >(BlockStep::Genesis { block: block->0 }),
        block matches Some(known) && known.header.number != 0 ==> step == Ok::<
            BlockStep,
            TraceError,
        >(BlockStep::Receipts { block: block->0, at: block->0.header.hash }),
{
}

/// `on_receipts` goes on exactly where there is a receipt for each transaction. It hands on the
/// nonce of every receipt, and the fee for the data on the first layer of every receipt whose
/// transaction does not name a fee currency; and it asks for the parent by its hash.
pub proof fn law_on_receipts(
    block: BlockSummary,
    receipts: Option<Vec<CeloTransactionReceipt>>,
    step: Result<ReceiptsStep, TraceError>,
)
    requires
        call_ensures(on_receipts, (block, receipts), step),
    ensures
        receipts is None ==> step == Err::<ReceiptsStep, TraceError>(TraceError::HeaderNotFound),
        receipts matches Some(all) && all@.len() != block.transactions@.len() ==> (step matches Err(
            TraceError::EvmCustom(text),
        ) && text@ == "transaction/receipt"@ + " count mismatch for block "@ + hex_text(
            block.header.hash@,
        ) + ": "@ + decimal_text(block.transactions@.len()) + " transactions, "@ + decimal_text(
            receipts->0@.len(),
        ) + " receipts"@),
        receipts matches Some(all) && all@.len() == block.transactions@.len() ==> (step matches Ok(
            next,
        ) && {
            &&& next.block == block
            &&& next.receipts == receipts->0
            &&& next.at == block.header.parent_hash
            &&& next.fees@.len() == block.transactions@.len()
            &&& forall|i: int|
                0 <= i < next.fees@.len() ==> {
                    let receipt = receipts->0@[i];
                    &&& (#[trigger] next.fees@[i]).deposit_nonce == receipt.deposit_nonce
                    &&& names_fee_currency(block.transactions@[i]) ==> next.fees@[i].l1_fee is None
                    &&& !names_fee_currency(block.transactions@[i]) ==> next.fees@[i].l1_fee
                        == receipt.l1_fee
                }
        }),
{
    match (receipts, step) {
        (Some(all), Ok(next)) => {
            assert forall|i: int| 0 <= i < next.fees@.len() implies {
                let receipt = all@[i];
                &&& (#[trigger] next.fees@[i]).deposit_nonce == receipt.deposit_nonce
                &&& names_fee_currency(block.transactions@[i]) ==> next.fees@[i].l1_fee is None
                &&& !names_fee_currency(block.transactions@[i]) ==> next.fees@[i].l1_fee
                    == receipt.l1_fee
            } by {
                law_fee_currency_is_named(block.transactions@[i]);
            }
        },
        _ => {},
    }
}

/// `on_parent` finds nothing to replay exactly where the block has no transactions and the state
/// root of its parent; any other block is replayed by its own hash.
pub proof fn law_on_parent(
    block: &BlockSummary,
    parent_root: Option<B256>,
    step: Result<ParentStep, TraceError>,
)
    requires
        call_ensures(on_parent, (block, parent_root), step),
    ensures
        parent_root is None <==> step == Err::<ParentStep, TraceError>(TraceError::HeaderNotFound),
        parent_root matches Some(root) && block.transactions@.len() == 0 && root@
            == block.header.state_root@ <==> step == Ok::<ParentStep, TraceError>(
            ParentStep::Unchanged,
        ),
        step matches Ok(ParentStep::Replay { at }) ==> at == block.header.hash,
        step matches Err(error) ==> error == TraceError::HeaderNotFound,
{
}

/// The served header has each field of the block's. A missing mix hash or nonce is served as zeros;
/// the slot number, the total difficulty and the size are not served.
pub open spec fn carries_header(header: Header, block: SealedHeader) -> bool {
    &&& header.hash == block.hash
    &&& header.total_difficulty is None
    &&& header.size is None
    &&& header.inner.slot_number is None
    &&& header.inner.parent_hash == block.parent_hash
    &&& header.inner.ommers_hash == block.ommers_hash
    &&& header.inner.beneficiary == block.beneficiary
    &&& header.inner.state_root == block.state_root
    &&& header.inner.transactions_root == block.transactions_root
    &&& header.inner.receipts_root == block.receipts_root
    &&& header.inner.logs_bloom == block.logs_bloom
    &&& header.inner.difficulty == block.difficulty
    &&& header.inner.number == block.number
    &&& header.inner.gas_limit == block.gas_limit
    &&& header.inner.gas_used == block.gas_used
    &&& header.inner.timestamp == block.timestamp
    &&& header.inner.extra_data@ == block.extra_data@
    &&& forall|k: int|
        0 <= k < 32 ==> #[trigger] header.inner.mix_hash@[k] == match block.mix_hash {
            Some(mix_hash) => mix_hash@[k],
            None => 0,
        }
    &&& forall|k: int|
        0 <= k < 8 ==> #[trigger] header.inner.nonce@[k] == match block.nonce {
            Some(nonce) => nonce@[k],
            None => 0,
        }
    &&& header.inner.base_fee_per_gas == block.base_fee_per_gas
    &&& header.inner.withdrawals_root == block.withdrawals_root
    &&& header.inner.blob_gas_used == block.blob_gas_used
    &&& header.inner.excess_blob_gas == block.excess_blob_gas
    &&& header.inner.parent_beacon_block_root == block.parent_beacon_block_root
    &&& header.inner.requests_hash == block.requests_hash
    &&& header.inner.block_access_list_hash == block.block_access_list_hash
}

/// A served header carries the header of its block.
pub proof fn law_served_header(header: Header, block: SealedHeader)
    requires
        is_served_header(header, block),
    ensures
        carries_header(header, block),
{
}

/// `build_rpc_header` carries every field over.
pub proof fn law_build_rpc_header(block: &SealedHeader, header: Header)
    requires
        call_ensures(build_rpc_header, (block,), header),
    ensures
        carries_header(header, *block),
{
    law_served_header(header, *block);
}

/// `genesis_output` keeps the records of the genesis state and adds nothing to them. The change has
/// the state root behind the block; the header is the block's, and the validation hash is that of
/// the file that is served.
pub proof fn law_genesis_output<B, X, T, D, H, V>(
    block: &BlockSummary,
    debank_block: B,
    transactions: Vec<X>,
    traces: Vec<DebankTrace<T>>,
    storage_contracts: Vec<Address>,
    state_diff: BlockStorageDiff<D>,
    validation: &V,
    output: TracedBlock<B, X, T, D, H>,
) where V: Fn(&BlockFile<B, X, T>) -> H
    requires
        call_ensures(
            genesis_output::<B, X, T, D, H, V>,
            (
                block,
                debank_block,
                transactions,
                traces,
                storage_contracts,
                state_diff,
                validation,
            ),
            output,
        ),
    ensures
        output.block_file.block == debank_block,
        output.block_file.transactions == transactions,
        output.block_file.traces == traces,
        output.block_file.error_traces@.len() == 0,
        output.block_file.events@.len() == 0,
        output.block_file.error_events@.len() == 0,
        output.block_file.storage_contracts == storage_contracts,
        output.state_diff.hash == block.header.state_root,
        output.state_diff.parent_hash == state_diff.parent_hash,
        output.state_diff.changes == state_diff.changes,
        carries_header(output.header, block.header),
        call_ensures(validation, (&output.block_file,), output.validation_hash),
{
    law_served_header(output.header, block.header);
}

/// `unchanged_output` has the block and its transactions and nothing else. The change is empty and
/// goes from the parent's state root to the block's; the header is the block's, and the validation
/// hash is that of the file that is served.
pub proof fn law_unchanged_output<B, X, T, D, H, V>(
    block: &BlockSummary,
    parent_root: B256,
    debank_block: B,
    transactions: Vec<X>,
    validation: &V,
    output: TracedBlock<B, X, T, D, H>,
) where V: Fn(&BlockFile<B, X, T>) -> H
    requires
        call_ensures(
            unchanged_output::<B, X, T, D, H, V>,
            (block, parent_root, debank_block, transactions, validation),
            output,
        ),
    ensures
        output.block_file.block == debank_block,
        output.block_file.transactions == transactions,
        output.block_file.traces@.len() == 0,
        output.block_file.error_traces@.len() == 0,
        output.block_file.events@.len() == 0,
        output.block_file.error_events@.len() == 0,
        output.block_file.storage_contracts@.len() == 0,
        output.state_diff.hash == block.header.state_root,
        output.state_diff.parent_hash == parent_root,
        output.state_diff.changes is None,
        carries_header(output.header, block.header),
        call_ensures(validation, (&output.block_file,), output.validation_hash),
{
    law_served_header(output.header, block.header);
}

/// A service asks the node that it was made for.
pub proof fn law_service_keeps_its_node<Eth>(
    eth: Eth,
    service: CeloDebankTraceApiImpl<Eth>,
    node: &Eth,
)
    requires
        call_ensures(CeloDebankTraceApiImpl::<Eth>::new, (eth,), service),
        call_ensures(CeloDebankTraceApiImpl::<Eth>::eth, (&service,), node),
    ensures
        *node == eth,
{
}

} // verus!
