use alloy_primitives::{Address, B256};
use celo_trace::block::{
    genesis_output, on_block, on_parent, on_receipts, unchanged_output, BlockFile, BlockStep,
    BlockStorageDiff, BlockSummary, CeloDebankTraceApiImpl, ParentStep, TraceError, TraceResult,
    TracedBlock, TxFees,
};
use celo_trace::event::event_matches_log;
use celo_trace::header::{build_rpc_header, SealedHeader};
use celo_trace::primitives::count_to_string;
use celo_trace::record::{Cip64LogSplit, DebankEvent, DebankTrace, Log};
use celo_trace::replay::{on_traces, try_on_traces};
use celo_trace::transaction::{
    get_deposit_nonce, get_l1_fee, is_non_native_cip64, CeloTransactionReceipt, CeloTxEnvelope,
    CeloTxKind,
};

type File = BlockFile<&'static str, u8, ()>;
type Output = TracedBlock<&'static str, u8, (), u32, String>;

fn trace_id(trace: &DebankTrace<()>) -> String {
    format!("t:{}:{}", trace.parent_trace_id, trace.pos_in_parent_trace)
}

fn event_id(event: &DebankEvent) -> String {
    format!("e:{}:{}", event.parent_trace_id, event.pos_in_parent_trace)
}

fn validation(file: &File) -> String {
    format!(
        "{}:{}:{}:{}:{}:{}:{}",
        file.block,
        file.transactions.len(),
        file.traces.len(),
        file.error_traces.len(),
        file.events.len(),
        file.error_events.len(),
        file.storage_contracts.len()
    )
}

fn word(last: u8) -> [u8; 32] {
    B256::with_last_byte(last).0
}

fn address(last: u8) -> [u8; 20] {
    Address::with_last_byte(last).into_array()
}

fn plain(last: u8) -> CeloTxEnvelope {
    CeloTxEnvelope { tx_hash: word(last), kind: CeloTxKind::Other }
}

fn cip64(last: u8, fee_currency: Option<[u8; 20]>) -> CeloTxEnvelope {
    CeloTxEnvelope { tx_hash: word(last), kind: CeloTxKind::Cip64 { fee_currency } }
}

fn log(last: u8, log_index: Option<u64>) -> Log {
    Log { address: address(last), topics: vec![word(last)], data: vec![last], log_index }
}

fn event(log: &Log) -> DebankEvent {
    DebankEvent {
        contract_id: log.address,
        selector: B256::from(log.topics[0]).to_string(),
        data: log.data.clone(),
        parent_trace_id: "root".to_string(),
        ..Default::default()
    }
}

fn receipt(logs: Vec<Log>) -> CeloTransactionReceipt {
    CeloTransactionReceipt { logs, deposit_nonce: None, l1_fee: Some(7) }
}

fn root() -> DebankTrace<()> {
    DebankTrace { id: "root".to_string(), ..Default::default() }
}

fn header(number: u64) -> SealedHeader {
    SealedHeader {
        hash: word(1),
        parent_hash: word(2),
        ommers_hash: word(5),
        beneficiary: address(4),
        state_root: word(3),
        transactions_root: word(6),
        receipts_root: word(7),
        logs_bloom: [8; 256],
        difficulty: word(9),
        number,
        gas_limit: 11,
        gas_used: 12,
        timestamp: 13,
        extra_data: vec![14],
        mix_hash: None,
        nonce: None,
        base_fee_per_gas: Some(17),
        withdrawals_root: None,
        blob_gas_used: None,
        excess_blob_gas: None,
        parent_beacon_block_root: None,
        requests_hash: None,
        block_access_list_hash: None,
    }
}

fn block(number: u64, transactions: Vec<CeloTxEnvelope>) -> BlockSummary {
    BlockSummary { header: header(number), transactions }
}

fn trace(
    block: &BlockSummary,
    receipts: &Vec<CeloTransactionReceipt>,
    results: Vec<TraceResult<()>>,
) -> Result<Output, TraceError> {
    on_traces(
        block,
        word(4),
        receipts,
        "block",
        vec![1, 2],
        results,
        BlockStorageDiff { hash: word(0), parent_hash: word(0), changes: Some(99) },
        vec![address(8)],
        &trace_id,
        &event_id,
        &validation,
    )
}

fn try_trace(
    block: &BlockSummary,
    receipts: &Vec<CeloTransactionReceipt>,
    results: Vec<TraceResult<()>>,
) -> Option<Result<Output, TraceError>> {
    try_on_traces(
        block,
        word(4),
        receipts,
        "block",
        vec![1, 2],
        results,
        BlockStorageDiff { hash: word(0), parent_hash: word(0), changes: Some(99) },
        vec![address(8)],
        &trace_id,
        &event_id,
        &validation,
    )
}

#[test]
fn service_keeps_its_node() {
    assert_eq!(*CeloDebankTraceApiImpl::new(42).eth(), 42);
}

#[test]
fn fee_currency_is_native_without_an_address_or_with_the_zero_address() {
    assert!(!is_non_native_cip64(&plain(1)));
    assert!(!is_non_native_cip64(&cip64(1, None)));
    assert!(!is_non_native_cip64(&cip64(1, Some(Address::ZERO.into_array()))));
    assert!(is_non_native_cip64(&cip64(1, Some(address(1)))));
}

#[test]
fn l1_fee_is_dropped_where_the_gas_price_is_in_another_currency() {
    let mut receipt = receipt(vec![]);
    receipt.deposit_nonce = Some(5);
    assert_eq!(get_deposit_nonce(&receipt), Some(5));
    assert_eq!(get_l1_fee(&receipt, &plain(1)), Some(7));
    assert_eq!(get_l1_fee(&receipt, &cip64(1, None)), Some(7));
    assert_eq!(get_l1_fee(&receipt, &cip64(1, Some(address(1)))), None);
}

#[test]
fn unknown_block_is_not_found() {
    assert_eq!(on_block(None), Err(TraceError::HeaderNotFound));
}

#[test]
fn first_block_comes_from_genesis() {
    let first = block(0, vec![]);
    assert_eq!(on_block(Some(first.clone())), Ok(BlockStep::Genesis { block: first.clone() }));
    let output: Output = genesis_output(
        &first,
        "block",
        vec![3],
        vec![root()],
        vec![address(6)],
        BlockStorageDiff { hash: word(9), parent_hash: word(5), changes: Some(1) },
        &validation,
    );
    assert_eq!(output.header, build_rpc_header(&first.header));
    assert_eq!(output.validation_hash, "block:1:1:0:0:0:1");
    assert_eq!(output.state_diff.hash, word(3));
    assert_eq!(output.state_diff.parent_hash, word(5));
    assert_eq!(output.state_diff.changes, Some(1));
    assert_eq!(output.block_file.transactions, [3]);
    assert_eq!(output.block_file.traces, [root()]);
    assert_eq!(output.block_file.storage_contracts, [address(6)]);
    assert!(output.block_file.events.is_empty());
}

#[test]
fn later_block_needs_receipts() {
    let later = block(8, vec![]);
    assert_eq!(
        on_block(Some(later.clone())),
        Ok(BlockStep::Receipts { block: later, at: word(1) })
    );
}

#[test]
fn missing_receipts_are_not_found() {
    assert_eq!(on_receipts(block(8, vec![]), None), Err(TraceError::HeaderNotFound));
}

#[test]
fn receipts_and_transactions_must_be_as_many() {
    let step = on_receipts(block(8, vec![plain(1)]), Some(vec![]));
    assert_eq!(
        step,
        Err(TraceError::EvmCustom(
            "transaction/receipt count mismatch for block \
             0x0000000000000000000000000000000000000000000000000000000000000001: \
             1 transactions, 0 receipts"
                .to_string()
        ))
    );
}

#[test]
fn receipts_give_the_fees_of_the_transactions() {
    let block = block(8, vec![plain(1), cip64(2, Some(address(1)))]);
    let mut deposit = receipt(vec![]);
    deposit.deposit_nonce = Some(3);
    let step = on_receipts(block.clone(), Some(vec![deposit, receipt(vec![])])).unwrap();
    assert_eq!(step.block, block);
    assert_eq!(step.at, word(2));
    assert_eq!(
        step.fees,
        [
            TxFees { deposit_nonce: Some(3), l1_fee: Some(7) },
            TxFees { deposit_nonce: None, l1_fee: None },
        ]
    );
}

#[test]
fn parent_decides_whether_there_is_anything_to_replay() {
    let empty = block(8, vec![]);
    assert_eq!(on_parent(&empty, None), Err(TraceError::HeaderNotFound));
    assert_eq!(on_parent(&empty, Some(word(3))), Ok(ParentStep::Unchanged));
    assert_eq!(on_parent(&empty, Some(word(4))), Ok(ParentStep::Replay { at: word(1) }));
    let full = block(8, vec![plain(1)]);
    assert_eq!(on_parent(&full, Some(word(3))), Ok(ParentStep::Replay { at: word(1) }));
}

#[test]
fn unchanged_block_has_an_empty_diff() {
    let block = block(8, vec![]);
    let output: Output = unchanged_output(&block, word(3), "block", vec![], &validation);
    assert_eq!(output.header, build_rpc_header(&block.header));
    assert_eq!(output.validation_hash, "block:0:0:0:0:0:0");
    assert_eq!(
        output.state_diff,
        BlockStorageDiff { hash: word(3), parent_hash: word(3), changes: None }
    );
    assert!(output.block_file.traces.is_empty());
    assert!(output.block_file.storage_contracts.is_empty());
}

#[test]
fn traces_and_transactions_must_be_as_many() {
    let error = trace(&block(8, vec![plain(1)]), &vec![receipt(vec![])], vec![]).unwrap_err();
    assert_eq!(
        error,
        TraceError::EvmCustom(
            "transaction/trace count mismatch for block \
             0x0000000000000000000000000000000000000000000000000000000000000001: \
             1 transactions, 0 traces"
                .to_string()
        )
    );
}

#[test]
fn hidden_logs_need_a_split() {
    let error = trace(
        &block(8, vec![cip64(0x21, Some(address(1)))]),
        &vec![receipt(vec![])],
        vec![((vec![root()], vec![], vec![], vec![]), None)],
    )
    .unwrap_err();
    assert_eq!(
        error,
        TraceError::EvmCustom(
            "missing CIP-64 trace metadata for transaction \
             0x0000000000000000000000000000000000000000000000000000000000000021"
                .to_string()
        )
    );
}

#[test]
fn refused_transaction_names_its_hash() {
    let error = trace(
        &block(8, vec![plain(5)]),
        &vec![receipt(vec![log(1, None)])],
        vec![((vec![root()], vec![], vec![], vec![]), None)],
    )
    .unwrap_err();
    assert_eq!(
        error,
        TraceError::EvmCustom(
            "0x0000000000000000000000000000000000000000000000000000000000000005: \
             inspector/receipt main-log count mismatch: 0 inspector logs, 1 receipt logs"
                .to_string()
        )
    );
}

#[test]
fn first_refused_transaction_is_the_reason() {
    let error = trace(
        &block(8, vec![plain(5), cip64(6, Some(address(1)))]),
        &vec![receipt(vec![log(1, None), log(2, None)]), receipt(vec![])],
        vec![
            ((vec![root()], vec![], vec![], vec![]), Some(Cip64LogSplit { pre: 1, post: 0 })),
            ((vec![root()], vec![], vec![], vec![]), None),
        ],
    )
    .unwrap_err();
    assert_eq!(
        error,
        TraceError::EvmCustom(
            "0x0000000000000000000000000000000000000000000000000000000000000005: \
             inspector/receipt main-log count mismatch: 0 inspector logs, 1 receipt logs"
                .to_string()
        )
    );
}

#[test]
fn cursor_runs_over_the_logs_of_the_block() {
    let fee = cip64(1, Some(address(1)));
    let block = block(8, vec![fee, plain(2), plain(3)]);
    let hidden = vec![log(1, None), log(2, None), log(3, None)];
    let last = vec![log(5, None)];
    let receipts = vec![receipt(hidden.clone()), receipt(vec![]), receipt(last.clone())];
    let reverted = DebankEvent { idx: 1, ..Default::default() };
    let results: Vec<TraceResult<()>> = vec![
        (
            (vec![root()], vec![], vec![event(&hidden[1])], vec![]),
            Some(Cip64LogSplit { pre: 1, post: 1 }),
        ),
        ((vec![], vec![root()], vec![], vec![reverted]), None),
        ((vec![root()], vec![], vec![event(&last[0])], vec![]), None),
    ];
    assert!(try_trace(&block, &receipts, results.clone()).is_some());
    let output = trace(&block, &receipts, results).unwrap();
    assert_eq!(output.header, build_rpc_header(&block.header));
    assert_eq!(output.validation_hash, "block:2:2:1:4:1:1");
    assert_eq!(
        output.block_file.events.iter().map(|event| event.idx).collect::<Vec<_>>(),
        [0, 1, 2, 3]
    );
    assert_eq!(output.block_file.error_events[0].idx, 3);
    assert_eq!(output.block_file.traces.len(), 2);
    assert_eq!(output.block_file.error_traces.len(), 1);
    assert_eq!(output.block_file.block, "block");
    assert_eq!(output.block_file.transactions, [1, 2]);
    assert_eq!(output.block_file.storage_contracts, [address(8)]);
    assert_eq!(
        output.state_diff,
        BlockStorageDiff { hash: word(3), parent_hash: word(4), changes: Some(99) }
    );
}

#[test]
fn cursor_takes_the_indexes_that_the_node_reports() {
    let block = block(8, vec![plain(1), plain(2)]);
    let first = vec![log(1, Some(30)), log(2, Some(31))];
    let receipts = vec![receipt(first.clone()), receipt(vec![])];
    let reverted = DebankEvent { idx: 2, ..Default::default() };
    let results: Vec<TraceResult<()>> = vec![
        ((vec![root()], vec![], vec![event(&first[0]), event(&first[1])], vec![]), None),
        ((vec![], vec![root()], vec![], vec![reverted]), None),
    ];
    let output = trace(&block, &receipts, results).unwrap();
    assert_eq!(output.block_file.error_events[0].idx, 32);
}

#[test]
fn events_of_a_block_are_its_logs_one_by_one() {
    let fee = cip64(1, Some(address(1)));
    let block = block(8, vec![fee, plain(2)]);
    let first = vec![log(1, Some(0)), log(2, None)];
    let second = vec![log(3, None), log(4, Some(3))];
    let receipts = vec![receipt(first.clone()), receipt(second.clone())];
    let results: Vec<TraceResult<()>> = vec![
        (
            (vec![root()], vec![], vec![], vec![]),
            Some(Cip64LogSplit { pre: 1, post: 1 }),
        ),
        ((vec![root()], vec![], vec![event(&second[0]), event(&second[1])], vec![]), None),
    ];
    let output = trace(&block, &receipts, results).unwrap();
    let logs = [first, second].concat();
    assert_eq!(output.block_file.events.len(), logs.len());
    for (j, (event, log)) in output.block_file.events.iter().zip(&logs).enumerate() {
        assert_eq!(event.idx, j);
        assert!(event_matches_log(event, log));
    }
}

#[test]
fn reverted_events_of_a_block_stand_between_the_fee_logs_of_their_transaction() {
    let fee = |last| cip64(last, Some(address(1)));
    let block = block(8, vec![fee(1), fee(2)]);
    let first = vec![log(1, None), log(2, None), log(3, None)];
    let second = vec![log(4, None), log(5, None), log(6, None), log(7, None)];
    let receipts = vec![receipt(first.clone()), receipt(second.clone())];
    let reverted = |idx| DebankEvent { idx, ..Default::default() };
    let seen = |log: &Log, idx| DebankEvent { idx, ..event(log) };
    let split = Some(Cip64LogSplit { pre: 1, post: 1 });
    // The inspector counts 0 for the first transaction, and 1 and 2 for the second.
    let results: Vec<TraceResult<()>> = vec![
        ((vec![root()], vec![], vec![seen(&first[1], 0)], vec![reverted(0), reverted(1)]), split),
        (
            (
                vec![root()],
                vec![],
                vec![seen(&second[1], 1), seen(&second[2], 2)],
                vec![reverted(1), reverted(2), reverted(3)],
            ),
            split,
        ),
    ];
    let output = trace(&block, &receipts, results).unwrap();
    assert_eq!(
        output.block_file.error_events.iter().map(|event| event.idx).collect::<Vec<_>>(),
        [1, 2, 4, 5, 6]
    );
}

#[test]
fn block_with_an_index_behind_the_last_one_has_no_outcome() {
    let logs = vec![log(1, Some(u64::MAX))];
    let block = block(8, vec![plain(1)]);
    let results = || vec![((vec![root()], vec![], vec![event(&logs[0])], vec![]), None)];
    assert_eq!(try_trace(&block, &vec![receipt(logs.clone())], results()), None);
    let near = vec![log(1, Some(u64::MAX - 1))];
    assert!(matches!(try_trace(&block, &vec![receipt(near)], results()), Some(Ok(_))));
}

#[test]
fn block_with_a_hidden_log_without_topics_has_no_outcome() {
    let bare = Log { address: address(1), topics: vec![], data: vec![], log_index: None };
    let block = block(8, vec![cip64(1, Some(address(1)))]);
    let split = Some(Cip64LogSplit { pre: 1, post: 0 });
    let results = vec![((vec![root()], vec![], vec![], vec![]), split)];
    assert_eq!(try_trace(&block, &vec![receipt(vec![bare])], results), None);
}

#[test]
fn what_is_not_reached_does_not_count() {
    let bare = Log { address: address(1), topics: vec![], data: vec![], log_index: None };
    let split = Some(Cip64LogSplit { pre: 1, post: 0 });
    let hidden = || ((vec![root()], vec![], vec![], vec![]), split);
    let fee = cip64(2, Some(address(1)));

    // The first transaction is refused, so the second is not looked at.
    let two = block(8, vec![plain(1), fee.clone()]);
    let receipts = vec![receipt(vec![log(1, None)]), receipt(vec![bare.clone()])];
    let results = vec![((vec![root()], vec![], vec![], vec![]), None), hidden()];
    assert!(matches!(try_trace(&two, &receipts, results), Some(Err(_))));

    // An entry without a root is left alone, whatever its receipt holds.
    let one = block(8, vec![fee]);
    let results = vec![((vec![], vec![], vec![], vec![]), split)];
    assert!(matches!(try_trace(&one, &vec![receipt(vec![bare.clone()])], results), Some(Ok(_))));

    // With another number of traces, no transaction is looked at.
    assert!(matches!(
        try_trace(&one, &vec![receipt(vec![bare])], vec![hidden(), hidden()]),
        Some(Err(_))
    ));
}

#[test]
fn counts_are_written_in_decimal() {
    assert_eq!(count_to_string(0), "0");
    assert_eq!(count_to_string(9), "9");
    assert_eq!(count_to_string(10), "10");
    assert_eq!(count_to_string(1234567890), "1234567890");
}

#[test]
fn served_header_has_the_fields_of_the_block() {
    let sealed = SealedHeader {
        hash: word(1),
        parent_hash: word(2),
        ommers_hash: word(3),
        beneficiary: address(4),
        state_root: word(5),
        transactions_root: word(6),
        receipts_root: word(7),
        logs_bloom: [8; 256],
        difficulty: word(9),
        number: 10,
        gas_limit: 11,
        gas_used: 12,
        timestamp: 13,
        extra_data: vec![14],
        mix_hash: Some(word(15)),
        nonce: Some([16; 8]),
        base_fee_per_gas: Some(17),
        withdrawals_root: Some(word(18)),
        blob_gas_used: Some(19),
        excess_blob_gas: Some(20),
        parent_beacon_block_root: Some(word(21)),
        requests_hash: Some(word(22)),
        block_access_list_hash: Some(word(23)),
    };
    let header = build_rpc_header(&sealed);
    assert_eq!(header.hash, word(1));
    assert_eq!(header.total_difficulty, None);
    assert_eq!(header.size, None);
    assert_eq!(header.inner.slot_number, None);
    assert_eq!(header.inner.parent_hash, word(2));
    assert_eq!(header.inner.ommers_hash, word(3));
    assert_eq!(header.inner.beneficiary, address(4));
    assert_eq!(header.inner.state_root, word(5));
    assert_eq!(header.inner.transactions_root, word(6));
    assert_eq!(header.inner.receipts_root, word(7));
    assert_eq!(header.inner.logs_bloom, [8; 256]);
    assert_eq!(header.inner.difficulty, word(9));
    assert_eq!(header.inner.number, 10);
    assert_eq!(header.inner.gas_limit, 11);
    assert_eq!(header.inner.gas_used, 12);
    assert_eq!(header.inner.timestamp, 13);
    assert_eq!(header.inner.extra_data, [14]);
    assert_eq!(header.inner.mix_hash, word(15));
    assert_eq!(header.inner.nonce, [16; 8]);
    assert_eq!(header.inner.base_fee_per_gas, Some(17));
    assert_eq!(header.inner.withdrawals_root, Some(word(18)));
    assert_eq!(header.inner.blob_gas_used, Some(19));
    assert_eq!(header.inner.excess_blob_gas, Some(20));
    assert_eq!(header.inner.parent_beacon_block_root, Some(word(21)));
    assert_eq!(header.inner.requests_hash, Some(word(22)));
    assert_eq!(header.inner.block_access_list_hash, Some(word(23)));

    let bare = SealedHeader { mix_hash: None, nonce: None, ..sealed };
    let header = build_rpc_header(&bare);
    assert_eq!(header.inner.mix_hash, [0; 32]);
    assert_eq!(header.inner.nonce, [0; 8]);
}
