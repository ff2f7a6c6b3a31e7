//! Tests of record classification.

use payments_engine::Error;
use payments_engine::TransactionType;
use payments_engine::str_eq;

#[test]
fn classify_deposit() {
    let r = TransactionType::try_from("deposit", Some(10000));
    assert!(matches!(r, Ok(TransactionType::Deposit(10000))));
}

#[test]
fn classify_withdrawal() {
    let r = TransactionType::try_from("withdrawal", Some(42));
    assert!(matches!(r, Ok(TransactionType::Withdrawal(42))));
}

#[test]
fn classify_references() {
    assert!(matches!(TransactionType::try_from("dispute", None), Ok(TransactionType::Dispute)));
    assert!(matches!(TransactionType::try_from("resolve", None), Ok(TransactionType::Resolve)));
    assert!(matches!(
        TransactionType::try_from("chargeback", None),
        Ok(TransactionType::Chargeback)
    ));
}

#[test]
fn classify_missing_amount() {
    assert!(matches!(TransactionType::try_from("deposit", None), Err(Error::AmountMissing)));
    assert!(matches!(TransactionType::try_from("withdrawal", None), Err(Error::AmountMissing)));
}

#[test]
fn classify_unknown_type() {
    let r = TransactionType::try_from("Deposit", Some(1));
    match r {
        Err(Error::UnknownTransactionType(s)) => assert_eq!(s, "Deposit"),
        _ => panic!("case-sensitive classification must reject this"),
    }
}

#[test]
fn str_eq_compares_characters() {
    assert!(str_eq("deposit", "deposit"));
    assert!(!str_eq("deposit", "deposits"));
    assert!(!str_eq("", "a"));
    assert!(str_eq("", ""));
}
