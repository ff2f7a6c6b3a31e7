//! Transaction records and classification of their type strings.

use crate::error::Error;
use crate::model::{Record, known_kind};
use vstd::prelude::*;

verus! {

broadcast use vstd::string::group_string_axioms;

/// The type of a transaction. Deposits and withdrawals carry their amount
/// in fixed-point minor units; the reference kinds carry none and instead
/// name a prior transaction whose amount is read from history.
pub enum TransactionType {
    /// A credit to the client's account: increases the available funds.
    Deposit(i64),
    /// A debit to the client's account: decreases the available funds.
    Withdrawal(i64),
    /// A claim that a prior transaction was erroneous: moves its amount
    /// from available to held.
    Dispute,
    /// The resolution of a dispute: moves the held amount back.
    Resolve,
    /// The terminal state of a dispute: the held amount is withdrawn for
    /// good and the account is frozen.
    Chargeback,
}

/// One input record: the type as text, the target client, the globally
/// unique transaction id, and the amount in minor units where the type
/// requires one.
pub struct TransactionInfo {
    pub tx_type: String,
    pub client: u16,
    pub tx: u32,
    pub amount: Option<i64>,
}

impl View for TransactionInfo {
    type V = Record;

    open spec fn view(&self) -> Record {
        Record {
            kind: self.tx_type@,
            client: self.client,
            tx: self.tx,
            amount: match self.amount {
                Some(a) => Some(a as int),
                None => None,
            },
        }
    }
}

impl TransactionInfo {
    /// An exact copy of this record.
    pub fn duplicate(&self) -> (r: TransactionInfo)
        ensures
            r@ == self@,
    {
        TransactionInfo {
            tx_type: self.tx_type.clone(),
            client: self.client,
            tx: self.tx,
            amount: self.amount,
        }
    }
}

/// Whether two string slices hold the same characters.
pub fn str_eq(a: &str, b: &str) -> (r: bool)
    ensures
        r == (a@ == b@),
{
    let sa: String = a.to_owned();
    let sb: String = b.to_owned();
    sa == sb
}

impl TransactionType {
    /// Classify a type string together with an optional amount. Exactly
    /// the five recognized kind strings are accepted, and a deposit or
    /// withdrawal without an amount is rejected.
    pub fn try_from(transaction: &str, amount: Option<i64>) -> (r: Result<TransactionType, Error>)
        ensures
            transaction@ == "deposit"@ ==> (match amount {
                Some(a) => r == Ok::<TransactionType, Error>(TransactionType::Deposit(a)),
                None => r == Err::<TransactionType, Error>(Error::AmountMissing),
            }),
            transaction@ == "withdrawal"@ ==> (match amount {
                Some(a) => r == Ok::<TransactionType, Error>(TransactionType::Withdrawal(a)),
                None => r == Err::<TransactionType, Error>(Error::AmountMissing),
            }),
            transaction@ == "dispute"@ ==> r == Ok::<TransactionType, Error>(
                TransactionType::Dispute,
            ),
            transaction@ == "resolve"@ ==> r == Ok::<TransactionType, Error>(
                TransactionType::Resolve,
            ),
            transaction@ == "chargeback"@ ==> r == Ok::<TransactionType, Error>(
                TransactionType::Chargeback,
            ),
            !known_kind(transaction@) ==> (r matches Err(Error::UnknownTransactionType(s))
                && s@ == transaction@),
            (match r {
                Ok(TransactionType::Deposit(a)) => transaction@ == "deposit"@ && amount == Some(a),
                Ok(TransactionType::Withdrawal(a)) => transaction@ == "withdrawal"@ && amount
                    == Some(a),
                Ok(TransactionType::Dispute) => transaction@ == "dispute"@,
                Ok(TransactionType::Resolve) => transaction@ == "resolve"@,
                Ok(TransactionType::Chargeback) => transaction@ == "chargeback"@,
                Err(Error::AmountMissing) => (transaction@ == "deposit"@ || transaction@
                    == "withdrawal"@) && amount is None,
                Err(Error::UnknownTransactionType(s)) => s@ == transaction@ && !known_kind(
                    transaction@,
                ),
                Err(_) => false,
            }),
    {
        proof {
            crate::model::lemma_kinds_distinct();
        }
        if str_eq(transaction, "deposit") {
            match amount {
                Some(a) => Ok(TransactionType::Deposit(a)),
                None => Err(Error::AmountMissing),
            }
        } else if str_eq(transaction, "withdrawal") {
            match amount {
                Some(a) => Ok(TransactionType::Withdrawal(a)),
                None => Err(Error::AmountMissing),
            }
        } else if str_eq(transaction, "dispute") {
            Ok(TransactionType::Dispute)
        } else if str_eq(transaction, "resolve") {
            Ok(TransactionType::Resolve)
        } else if str_eq(transaction, "chargeback") {
            Ok(TransactionType::Chargeback)
        } else {
            Err(Error::UnknownTransactionType(transaction.to_owned()))
        }
    }
}

} // verus!
