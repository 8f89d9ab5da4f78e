//! The header of a block, as the node serves it.

use vstd::prelude::*;

use crate::primitives::{Address, B256};

verus! {

/// The fields of a sealed block header. Fields that came with a later fork are optional.
#[derive(Clone, Debug, PartialEq, Eq)]
pub struct SealedHeader {
    pub hash: B256,
    pub parent_hash: B256,
    pub ommers_hash: B256,
    pub beneficiary: Address,
    pub state_root: B256,
    pub transactions_root: B256,
    pub receipts_root: B256,
    pub logs_bloom: [u8; 256],
    /// A 256-bit number, most significant byte first.
    pub difficulty: B256,
    pub number: u64,
    pub gas_limit: u64,
    pub gas_used: u64,
    pub timestamp: u64,
    pub extra_data: Vec<u8>,
    pub mix_hash: Option<B256>,
    pub nonce: Option<[u8; 8]>,
    pub base_fee_per_gas: Option<u64>,
    pub withdrawals_root: Option<B256>,
    pub blob_gas_used: Option<u64>,
    pub excess_blob_gas: Option<u64>,
    pub parent_beacon_block_root: Option<B256>,
    pub requests_hash: Option<B256>,
    pub block_access_list_hash: Option<B256>,
}

/// The consensus fields of a served header.
#[derive(Clone, Debug, PartialEq, Eq)]
pub struct ConsensusHeader {
    pub parent_hash: B256,
    pub ommers_hash: B256,
    pub beneficiary: Address,
    pub state_root: B256,
    pub transactions_root: B256,
    pub receipts_root: B256,
    pub logs_bloom: [u8; 256],
    pub difficulty: B256,
    pub number: u64,
    pub gas_limit: u64,
    pub gas_used: u64,
    pub timestamp: u64,
    pub extra_data: Vec<u8>,
    pub mix_hash: B256,
    pub nonce: [u8; 8],
    pub base_fee_per_gas: Option<u64>,
    pub withdrawals_root: Option<B256>,
    pub blob_gas_used: Option<u64>,
    pub excess_blob_gas: Option<u64>,
    pub parent_beacon_block_root: Option<B256>,
    pub requests_hash: Option<B256>,
    pub block_access_list_hash: Option<B256>,
    pub slot_number: Option<u64>,
}

/// A header as the node serves it.
#[derive(Clone, Debug, PartialEq, Eq)]
pub struct Header {
    pub inner: ConsensusHeader,
    pub hash: B256,
    pub total_difficulty: Option<B256>,
    pub size: Option<B256>,
}

/// The value of an optional word, or zeros.
pub open spec fn word_or_zero(word: Option<B256>) -> Seq<u8> {
    match word {
        Some(word) => word@,
        None => Seq::new(32, |i: int| 0u8),
    }
}

/// The value of an optional nonce, or zeros.
pub open spec fn nonce_or_zero(nonce: Option<[u8; 8]>) -> Seq<u8> {
    match nonce {
        Some(nonce) => nonce@,
        None => Seq::new(8, |i: int| 0u8),
    }
}

/// `header` is the header of the block as the node serves it. A missing mix hash or nonce is served
/// as zeros; the slot number, the total difficulty and the size are not served.
pub open spec fn is_served_header(header: Header, block: SealedHeader) -> bool {
    &&& header.hash == block.hash
    &&& header.total_difficulty is None
    &&& header.size is None
    &&& header.inner.slot_number is None
    &&& header.inner.parent_hash == block.parent_hash
    &&& header.inner.ommers_hash == block.ommers_hash
    &&& header.inner.beneficiary == block.beneficiary
    &&& header.inner.state_root == block.state_root
    &&& header.inner.transactions_root == block.transactions_root
    &&& header.inner.receipts_root == block.receipts_root
    &&& header.inner.logs_bloom == block.logs_bloom
    &&& header.inner.difficulty == block.difficulty
    &&& header.inner.number == block.number
    &&& header.inner.gas_limit == block.gas_limit
    &&& header.inner.gas_used == block.gas_used
    &&& header.inner.timestamp == block.timestamp
    &&& header.inner.extra_data@ == block.extra_data@
    &&& header.inner.mix_hash@ == word_or_zero(block.mix_hash)
    &&& header.inner.nonce@ == nonce_or_zero(block.nonce)
    &&& header.inner.base_fee_per_gas == block.base_fee_per_gas
    &&& header.inner.withdrawals_root == block.withdrawals_root
    &&& header.inner.blob_gas_used == block.blob_gas_used
    &&& header.inner.excess_blob_gas == block.excess_blob_gas
    &&& header.inner.parent_beacon_block_root == block.parent_beacon_block_root
    &&& header.inner.requests_hash == block.requests_hash
    &&& header.inner.block_access_list_hash == block.block_access_list_hash
}

/// The header of a block as the node serves it.
pub fn build_rpc_header(block: &SealedHeader) -> (header: Header)
    ensures
        is_served_header(header, *block),
{
    let header = Header {
        inner: ConsensusHeader {
            parent_hash: block.parent_hash,
            ommers_hash: block.ommers_hash,
            beneficiary: block.beneficiary,
            state_root: block.state_root,
            transactions_root: block.transactions_root,
            receipts_root: block.receipts_root,
            logs_bloom: block.logs_bloom,
            difficulty: block.difficulty,
            number: block.number,
            gas_limit: block.gas_limit,
            gas_used: block.gas_used,
            timestamp: block.timestamp,
            extra_data: block.extra_data.clone(),
            mix_hash: match block.mix_hash {
                Some(mix_hash) => mix_hash,
                None => [0u8; 32],
            },
            nonce: match block.nonce {
                Some(nonce) => nonce,
                None => [0u8; 8],
            },
            base_fee_per_gas: block.base_fee_per_gas,
            withdrawals_root: block.withdrawals_root,
            blob_gas_used: block.blob_gas_used,
            excess_blob_gas: block.excess_blob_gas,
            parent_beacon_block_root: block.parent_beacon_block_root,
            requests_hash: block.requests_hash,
            block_access_list_hash: block.block_access_list_hash,
            slot_number: None,
        },
        hash: block.hash,
        total_difficulty: None,
        size: None,
    };
    assert(header.inner.extra_data@ =~= block.extra_data@);
    assert(header.inner.mix_hash@ =~= word_or_zero(block.mix_hash));
    assert(header.inner.nonce@ =~= nonce_or_zero(block.nonce));
    header
}

} // verus!
