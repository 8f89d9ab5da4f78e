//! Block traces of a Celo node, reconciled with the canonical receipts.
//!
//! [`reconcile::reconcile_receipt_events`] brings the trace of one transaction in line with its
//! receipt. [`block`] and [`replay`] decide, answer by answer, what the trace of a block is.
//! The identifiers of frames and events come from two functions that the caller hands in.

pub mod block;
pub mod block_laws;
pub mod event;
pub mod header;
pub mod index;
pub mod input_laws;
pub mod log_laws;
pub mod move_laws;
pub mod order;
pub mod outcome_laws;
pub mod position;
pub mod primitives;
pub mod receipt_laws;
pub mod reconcile;
pub mod record;
pub mod rekey;
pub mod replay;
pub mod replay_laws;
pub mod step_laws;
pub mod subtree_laws;
pub mod transaction;
