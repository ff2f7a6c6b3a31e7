//! Tests of the transaction processor: routing, history, disputes,
//! duplicate detection, and the final summaries. Amounts are fixed-point
//! minor units: 10000 units stand for 1.0000.

use payments_engine::Engine;
use payments_engine::Error;
use payments_engine::TransactionInfo;

fn rec(tx_type: &str, client: u16, tx: u32, amount: Option<i64>) -> TransactionInfo {
    TransactionInfo { tx_type: tx_type.to_string(), client, tx, amount }
}

#[test]
fn new_engine_defaults() {
    let engine = Engine::default();
    assert!(engine.transactions.is_empty());
    assert!(engine.clients.is_empty());
}

#[test]
fn unknown_transaction_type_fails() {
    let mut engine = Engine::default();
    let records = vec![rec("deposit", 1, 1, Some(10000)), rec("transfer", 1, 2, Some(10000))];
    let result = engine.read(&records);
    assert_eq!(result, Err(Error::UnknownTransactionType("transfer".to_string())));
}

#[test]
fn duplicate_transactions_fail() {
    let mut engine = Engine::default();
    let records = vec![rec("deposit", 1, 7, Some(10000)), rec("deposit", 1, 7, Some(20000))];
    let result = engine.read(&records);
    assert_eq!(result, Err(Error::TransactionAlreadyProcessed(7)));
}

#[test]
fn read_rejects_missing_amount() {
    let mut engine = Engine::default();
    let records = vec![rec("withdrawal", 1, 1, None)];
    assert_eq!(engine.read(&records), Err(Error::AmountMissing));
}

#[test]
fn read_accepts_valid_batch() {
    let mut engine = Engine::default();
    let records = vec![
        rec("deposit", 1, 1, Some(10000)),
        rec("dispute", 1, 1, None),
        rec("resolve", 1, 1, None),
        rec("withdrawal", 1, 2, Some(5000)),
    ];
    assert_eq!(engine.read(&records), Ok(()));
    assert_eq!(engine.transactions.len(), 2);
    assert_eq!(engine.clients.len(), 1);
}

// One deposit leaves its full amount available and the account unlocked.
#[test]
fn single_deposit_summary() {
    let mut engine = Engine::default();
    let records = vec![rec("deposit", 1, 1, Some(100000))];
    assert_eq!(engine.stream(&records), Ok(()));
    let rows = engine.write();
    assert_eq!(rows.len(), 1);
    assert_eq!(rows[0].client, 1);
    assert_eq!(rows[0].available, 100000);
    assert_eq!(rows[0].held, 0);
    assert_eq!(rows[0].total, 100000);
    assert_eq!(rows[0].locked, false);
}

// A withdrawal takes its amount back out of the available funds.
#[test]
fn deposit_then_withdraw_summary() {
    let mut engine = Engine::default();
    let records = vec![rec("deposit", 1, 1, Some(100000)), rec("withdrawal", 1, 2, Some(30000))];
    assert_eq!(engine.stream(&records), Ok(()));
    let rows = engine.write();
    assert_eq!(rows.len(), 1);
    assert_eq!(rows[0].available, 70000);
    assert_eq!(rows[0].held, 0);
    assert_eq!(rows[0].total, 70000);
}

// A dispute holds the funds; the matching resolve releases them again.
#[test]
fn dispute_then_resolve_summary() {
    let mut engine = Engine::default();
    let records = vec![rec("deposit", 1, 1, Some(50000)), rec("dispute", 1, 1, None)];
    assert_eq!(engine.stream(&records), Ok(()));
    let rows = engine.write();
    assert_eq!(rows[0].available, 0);
    assert_eq!(rows[0].held, 50000);
    assert_eq!(rows[0].total, 50000);

    let more = vec![rec("resolve", 1, 1, None)];
    assert_eq!(engine.stream(&more), Ok(()));
    let rows = engine.write();
    assert_eq!(rows[0].available, 50000);
    assert_eq!(rows[0].held, 0);
    assert_eq!(rows[0].total, 50000);
}

// A chargeback removes the held funds for good and freezes the account;
// a later deposit is rejected and changes nothing.
#[test]
fn chargeback_locks_account() {
    let mut engine = Engine::default();
    let records = vec![
        rec("deposit", 1, 1, Some(50000)),
        rec("dispute", 1, 1, None),
        rec("chargeback", 1, 1, None),
    ];
    assert_eq!(engine.stream(&records), Ok(()));
    let rows = engine.write();
    assert_eq!(rows[0].available, 0);
    assert_eq!(rows[0].held, 0);
    assert_eq!(rows[0].total, 0);
    assert_eq!(rows[0].locked, true);

    let late = rec("deposit", 1, 2, Some(1000000));
    assert_eq!(engine.process(&late), Err(Error::AccountLocked));
    let rows = engine.write();
    assert_eq!(rows[0].available, 0);
    assert_eq!(rows[0].held, 0);
    assert_eq!(rows[0].total, 0);
    assert_eq!(rows[0].locked, true);
}

// A withdrawal with no prior deposit fails for insufficient funds and the
// run aborts without touching the engine.
#[test]
fn withdrawal_without_funds_aborts() {
    let mut engine = Engine::default();
    let records = vec![rec("withdrawal", 1, 1, Some(500000))];
    assert_eq!(engine.stream(&records), Err(Error::InsufficientFunds));
    assert!(engine.clients.is_empty());
    assert!(engine.transactions.is_empty());
}

// Two records with the same transaction id abort the whole run at the
// second record: the caller emits no summary for an aborted run.
#[test]
fn duplicate_id_aborts_stream() {
    let mut engine = Engine::default();
    let records = vec![rec("deposit", 1, 7, Some(100000)), rec("deposit", 1, 7, Some(100000))];
    assert_eq!(engine.stream(&records), Err(Error::TransactionAlreadyProcessed(7)));
}

#[test]
fn stream_rejects_missing_amount() {
    let mut engine = Engine::default();
    let records = vec![rec("deposit", 1, 1, None)];
    assert_eq!(engine.stream(&records), Err(Error::AmountMissing));
}

#[test]
fn stream_rejects_unknown_type() {
    let mut engine = Engine::default();
    let records = vec![rec("payout", 1, 1, Some(100))];
    assert_eq!(engine.stream(&records), Err(Error::UnknownTransactionType("payout".to_string())));
}

#[test]
fn chargeback_of_unknown_transaction_fails() {
    let mut engine = Engine::default();
    let records = vec![rec("chargeback", 1, 9, None)];
    assert_eq!(engine.stream(&records), Err(Error::UnableToProcessTransaction));
}

// An ignored dispute reference only creates the account; repeating it
// leaves the state exactly as after the first time.
#[test]
fn dispute_of_unknown_transaction_is_ignored() {
    let mut engine = Engine::default();
    let once = vec![rec("dispute", 1, 9, None)];
    assert_eq!(engine.stream(&once), Ok(()));
    let rows = engine.write();
    assert_eq!(rows.len(), 1);
    assert_eq!(rows[0].available, 0);
    assert_eq!(rows[0].held, 0);
    assert_eq!(rows[0].locked, false);

    assert_eq!(engine.stream(&once), Ok(()));
    let rows = engine.write();
    assert_eq!(rows.len(), 1);
    assert_eq!(rows[0].available, 0);
    assert_eq!(rows[0].held, 0);
}

#[test]
fn dispute_for_wrong_client_is_ignored() {
    let mut engine = Engine::default();
    let records = vec![rec("deposit", 1, 1, Some(50000)), rec("dispute", 2, 1, None)];
    assert_eq!(engine.stream(&records), Ok(()));
    let rows = engine.write();
    assert_eq!(rows.len(), 2);
    assert_eq!(rows[0].client, 1);
    assert_eq!(rows[0].available, 50000);
    assert_eq!(rows[0].held, 0);
    assert_eq!(rows[1].client, 2);
    assert_eq!(rows[1].available, 0);
    assert_eq!(rows[1].held, 0);
}

#[test]
fn resolve_of_undisputed_transaction_is_ignored() {
    let mut engine = Engine::default();
    let records = vec![rec("deposit", 1, 1, Some(50000)), rec("resolve", 1, 1, None)];
    assert_eq!(engine.stream(&records), Ok(()));
    let rows = engine.write();
    assert_eq!(rows[0].available, 50000);
    assert_eq!(rows[0].held, 0);
}

// A dispute may push the available funds below zero; the total stays the
// exact sum of available and held.
#[test]
fn dispute_after_withdrawal_goes_negative() {
    let mut engine = Engine::default();
    let records = vec![
        rec("deposit", 1, 1, Some(100000)),
        rec("withdrawal", 1, 2, Some(100000)),
        rec("dispute", 1, 1, None),
    ];
    assert_eq!(engine.stream(&records), Ok(()));
    let rows = engine.write();
    assert_eq!(rows[0].available, -100000);
    assert_eq!(rows[0].held, 100000);
    assert_eq!(rows[0].total, 0);
}

// A dispute whose held funds would leave the representable range aborts
// the run with an overflow error.
#[test]
fn dispute_overflow_is_rejected() {
    let mut engine = Engine::default();
    let records = vec![
        rec("deposit", 1, 1, Some(i64::MAX)),
        rec("withdrawal", 1, 2, Some(i64::MAX)),
        rec("deposit", 1, 3, Some(i64::MAX)),
        rec("dispute", 1, 1, None),
        rec("dispute", 1, 3, None),
    ];
    assert_eq!(engine.stream(&records), Err(Error::AmountOverflow));
}

// Summaries come out in the order the accounts were first referenced.
#[test]
fn write_keeps_first_reference_order() {
    let mut engine = Engine::default();
    let records = vec![
        rec("deposit", 5, 1, Some(10000)),
        rec("deposit", 2, 2, Some(20000)),
        rec("deposit", 5, 3, Some(30000)),
    ];
    assert_eq!(engine.stream(&records), Ok(()));
    let rows = engine.write();
    assert_eq!(rows.len(), 2);
    assert_eq!(rows[0].client, 5);
    assert_eq!(rows[0].available, 40000);
    assert_eq!(rows[1].client, 2);
    assert_eq!(rows[1].available, 20000);
}
