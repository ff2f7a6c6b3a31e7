//! Tests of the per-client account state machine. Amounts are fixed-point
//! minor units: 10000 units stand for 1.0000.

use payments_engine::ClientInfo;
use payments_engine::Client;
use payments_engine::Error;
use payments_engine::TransactionType;

#[test]
fn new_client_defaults() {
    let client = ClientInfo::new(1);
    assert_eq!(client.id, 1);
    assert_eq!(client.funds.available, 0);
    assert_eq!(client.funds.held, 0);
    assert_eq!(client.locked, false);
}

#[test]
fn create_client_from_client_info() {
    let client_info = ClientInfo::new(1);
    let client = Client::from(&client_info);
    assert_eq!(client.client, 1);
    assert_eq!(client.available, 0);
    assert_eq!(client.held, 0);
    assert_eq!(client.total, 0);
    assert_eq!(client.locked, false);
}

#[test]
fn client_can_deposit() {
    let mut client_info = ClientInfo::new(1);
    let deposit = client_info.deposit(10000);
    assert_eq!(deposit, Ok(()));
    assert_eq!(client_info.funds.available, 10000)
}

#[test]
fn client_can_withdraw() {
    let mut client_info = ClientInfo::new(1);
    let _deposit = client_info.deposit(10000);
    let _withdraw = client_info.withdraw(200);
    assert_eq!(client_info.funds.available, 9800);
    assert_eq!(client_info.funds.held, 0);
}

#[test]
fn client_cannot_withdraw() {
    let mut client_info = ClientInfo::new(1);
    let _deposit = client_info.deposit(10000);
    let withdraw = client_info.withdraw(30200);
    assert_eq!(withdraw, Err(Error::InsufficientFunds));
    assert_eq!(client_info.funds.available, 10000);
    assert_eq!(client_info.funds.held, 0);
}

#[test]
fn client_account_is_locked() {
    let mut client_info = ClientInfo::new(1);
    let _deposit = client_info.deposit(10006);
    let _dispute = client_info.dispute_or_resolve(&TransactionType::Dispute, 1, 10006);
    let _chargeback = client_info.chargeback(1, 10006);
    let withdraw_attempt = client_info.withdraw(300);
    let deposit_attempt = client_info.deposit(100);
    assert_eq!(withdraw_attempt, Err(Error::AccountLocked));
    assert_eq!(deposit_attempt, Err(Error::AccountLocked));
    assert_eq!(client_info.locked, true);
    assert_eq!(client_info.funds.available, 0);
    assert_eq!(client_info.funds.held, 0);
}

#[test]
fn client_can_withdraw_exact_balance() {
    let mut client_info = ClientInfo::new(1);
    let _deposit = client_info.deposit(10000);
    let withdraw = client_info.withdraw(10000);
    assert_eq!(withdraw, Ok(()));
    assert_eq!(client_info.funds.available, 0);
}

#[test]
fn dispute_moves_funds_to_held() {
    let mut client_info = ClientInfo::new(1);
    let _deposit = client_info.deposit(50000);
    let dispute = client_info.dispute_or_resolve(&TransactionType::Dispute, 1, 50000);
    assert_eq!(dispute, Ok(()));
    assert_eq!(client_info.funds.available, 0);
    assert_eq!(client_info.funds.held, 50000);
    let snapshot = Client::from(&client_info);
    assert_eq!(snapshot.total, 50000);
}

#[test]
fn resolve_returns_funds_to_available() {
    let mut client_info = ClientInfo::new(1);
    let _deposit = client_info.deposit(50000);
    let _dispute = client_info.dispute_or_resolve(&TransactionType::Dispute, 1, 50000);
    let resolve = client_info.dispute_or_resolve(&TransactionType::Resolve, 1, 50000);
    assert_eq!(resolve, Ok(()));
    assert_eq!(client_info.funds.available, 50000);
    assert_eq!(client_info.funds.held, 0);
}

#[test]
fn dispute_of_disputed_transaction_fails() {
    let mut client_info = ClientInfo::new(1);
    let _deposit = client_info.deposit(50000);
    let _first = client_info.dispute_or_resolve(&TransactionType::Dispute, 1, 50000);
    let second = client_info.dispute_or_resolve(&TransactionType::Dispute, 1, 50000);
    assert_eq!(second, Err(Error::AlreadyDisputed));
    assert_eq!(client_info.funds.available, 0);
    assert_eq!(client_info.funds.held, 50000);
}

#[test]
fn resolve_of_undisputed_transaction_is_noop() {
    let mut client_info = ClientInfo::new(1);
    let _deposit = client_info.deposit(50000);
    let resolve = client_info.dispute_or_resolve(&TransactionType::Resolve, 1, 50000);
    assert_eq!(resolve, Ok(()));
    assert_eq!(client_info.funds.available, 50000);
    assert_eq!(client_info.funds.held, 0);
}

#[test]
fn chargeback_of_undisputed_transaction_is_noop() {
    let mut client_info = ClientInfo::new(1);
    let _deposit = client_info.deposit(50000);
    let chargeback = client_info.chargeback(1, 50000);
    assert_eq!(chargeback, Ok(()));
    assert_eq!(client_info.funds.available, 50000);
    assert_eq!(client_info.funds.held, 0);
    assert_eq!(client_info.locked, false);
}

#[test]
fn dispute_or_resolve_rejects_other_types() {
    let mut client_info = ClientInfo::new(1);
    let r = client_info.dispute_or_resolve(&TransactionType::Chargeback, 1, 100);
    assert_eq!(r, Err(Error::UnknownDisputeOrResolutionType));
}

#[test]
fn deposit_overflow_is_rejected() {
    let mut client_info = ClientInfo::new(1);
    let first = client_info.deposit(i64::MAX);
    assert_eq!(first, Ok(()));
    let second = client_info.deposit(1);
    assert_eq!(second, Err(Error::AmountOverflow));
    assert_eq!(client_info.funds.available, i64::MAX);
}
