//! Storage contract for tracking cross-layer withdrawals and the L1 lifecycle
//! of the L2 blocks that contain them.
//!
//! Withdrawal events emitted on L2 become final only after their L2 block has
//! been committed, proven and executed on L1. The store keeps one record per
//! withdrawal event and one set of lifecycle markers per L2 block, and
//! answers whether a withdrawal has reached a given phase and which
//! withdrawals still await finalization. Every mutating operation is atomic
//! and may be repeated without changing the outcome.

pub mod decimal;
pub mod error;
pub mod laws;
pub mod ledger;
pub mod lifecycle;
pub mod primitives;
pub mod queue;
pub mod rows;
pub mod store;

pub use decimal::{decode, encode, Decimal};
pub use error::Error;
pub use ledger::{StoredWithdrawal, WithdrawalEvent, WithdrawalLedger};
pub use lifecycle::{BlockLifecycle, BlockLifecycleStore, Phase, PhaseUpdate};
pub use primitives::{H160, H256, U256};
pub use rows::{
    from_row, key_columns, to_row, withdrawal_columns, KeyColumns, WithdrawalColumns, WithdrawalRow,
};
pub use store::{
    add_withdrawals, committed_new_batch, executed_new_batch, last_l1_block_seen,
    last_l2_block_seen, unfinalized_withdrawals, update_withdrawals_to_finalized,
    verified_new_batch, withdrawal_committed_in_block, withdrawal_executed_in_block,
    withdrawal_verified_in_block, Store, FINALIZATION_BATCH_SIZE,
};
