# celo_trace

Traces of Celo blocks, reconciled with the canonical receipts, and proved with Verus.

The inspector that traces a transaction sees its calls and their events. It does not see the debit
and the credit of a fee currency, which run as system calls around the main execution. Their logs
are in the receipt. The library makes the missing events, gives them to the transaction's root
frame, moves and re-keys what stands below the root, and gives every event, successful or reverted,
its index in the block.

## Layout

- `src/record.rs`: frames, events and logs, and their models.
- `src/event.rs`, `src/index.rs`, `src/order.rs`, `src/position.rs`, `src/rekey.rs`: the steps of a
  reconciliation.
- `src/reconcile.rs`: the reconciliation of one transaction.
- `src/transaction.rs`, `src/header.rs`: what a block's trace reads of transactions, receipts and
  headers.
- `src/block.rs`, `src/replay.rs`: what to ask of a node for a block, and what its answers mean.
- `src/subtree_laws.rs`, `src/receipt_laws.rs`, `src/block_laws.rs`: what always holds.
- `src/primitives.rs`: byte strings and their text. The text of a 256-bit word comes from
  `alloy-primitives`; its contract is the one in this crate that is believed and not proved.
- `app/`: the service around the library. It asks the node, replays the block and answers requests.

## Identifiers

The identifier of a record is computed by functions of the caller. The contracts hold for every pair
of functions whose result depends on the record alone.
