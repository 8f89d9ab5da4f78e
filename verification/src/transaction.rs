//! Transactions and receipts, as far as a block's trace reads them.

use vstd::prelude::*;

use crate::primitives::{bytes_equal, Address, B256};
use crate::record::Log;

verus! {

/// What a transaction carries, by its type.
#[derive(Clone, Debug, PartialEq, Eq)]
pub enum CeloTxKind {
    /// A transaction that may pay its fee in a currency of its choice.
    Cip64 { fee_currency: Option<Address> },
    /// A transaction of any other type.
    Other,
}

/// A transaction of a block.
#[derive(Clone, Debug, PartialEq, Eq)]
pub struct CeloTxEnvelope {
    pub tx_hash: B256,
    pub kind: CeloTxKind,
}

/// The receipt of a transaction.
#[derive(Clone, Debug, PartialEq, Eq)]
pub struct CeloTransactionReceipt {
    pub logs: Vec<Log>,
    /// The nonce of a deposit; other transactions have none.
    pub deposit_nonce: Option<u64>,
    /// The fee for the data on the first layer, in the native currency.
    pub l1_fee: Option<u128>,
}

/// The transaction pays its fee in a currency other than the native one: it names a fee currency,
/// and not the zero address.
pub open spec fn pays_in_fee_currency(tx: CeloTxEnvelope) -> bool {
    match tx.kind {
        CeloTxKind::Cip64 { fee_currency: Some(fee_currency) } => fee_currency@ != Seq::new(
            20,
            |i: int| 0u8,
        ),
        _ => false,
    }
}

/// The nonce that a deposit's receipt reports.
pub fn get_deposit_nonce(receipt: &CeloTransactionReceipt) -> (nonce: Option<u64>)
    ensures
        nonce == receipt.deposit_nonce,
{
    receipt.deposit_nonce
}

/// The fee for the data on the first layer, where it is in the same currency as the gas price.
///
/// A receipt of a transaction that pays in a fee currency reports the gas price in units of that
/// currency, and this fee in native ones: the two must not be mixed.
pub fn get_l1_fee(receipt: &CeloTransactionReceipt, tx: &CeloTxEnvelope) -> (fee: Option<u128>)
    ensures
        fee == if pays_in_fee_currency(*tx) {
            None
        } else {
            receipt.l1_fee
        },
{
    if is_non_native_cip64(tx) {
        return None;
    }
    receipt.l1_fee
}

/// Whether the transaction pays its fee in a currency other than the native one.
pub fn is_non_native_cip64(tx: &CeloTxEnvelope) -> (non_native: bool)
    ensures
        non_native == pays_in_fee_currency(*tx),
{
    match &tx.kind {
        CeloTxKind::Cip64 { fee_currency } => match fee_currency {
            Some(fee_currency) => {
                let zero: Address = [0u8; 20];
                assert(zero@ =~= Seq::new(20, |i: int| 0u8));
                !bytes_equal(fee_currency, &zero)
            },
            None => false,
        },
        CeloTxKind::Other => false,
    }
}

} // verus!
