//! A verified payments ledger: deposits, withdrawals, disputes, resolves
//! and chargebacks applied to per-client accounts, with balances held as
//! fixed-point minor units (four decimal places to the unit).

mod client;
mod engine;
mod error;
mod model;
mod transaction;

pub use client::{Client, ClientFunds, ClientInfo};
pub use engine::Engine;
pub use error::Error;
pub use transaction::{TransactionInfo, TransactionType, str_eq};
pub use model::{
    Account, Ledger, Outcome, Record, account_ok, account_wf, after_chargeback, after_deposit,
    after_dispute, after_resolve, after_withdraw, amount_of, entry_ok, fresh_account, get_account,
    has_entry, has_tx, ignored_reference, known_kind, ledger_wf, lemma_account_never_deleted,
    lemma_duplicate_rejected, lemma_history_immutable,
    lemma_ignored_reference_idempotent, lemma_kinds_distinct, lemma_run_locked_monotonic,
    lemma_run_preserves_wf, lemma_step_locked_monotonic, lemma_step_preserves_wf, outcome_of,
    read_step, run, run_overflows, run_read, run_stop_state, step, step_overflows, sum_amounts,
    total_of, tx_index, unique_txs, valid_record, with_account,
};
