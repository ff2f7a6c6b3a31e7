use vstd::prelude::*;

verus! {

/// A failure while processing a transaction stream. Every variant is
/// fatal: the run aborts and no account summary is emitted.
#[derive(Debug, Clone, PartialEq, Eq)]
pub enum Error {
    /// A deposit or withdrawal reused a transaction id already in history.
    TransactionAlreadyProcessed(u32),
    /// The record's type string is none of the five recognized kinds.
    UnknownTransactionType(String),
    /// A deposit or withdrawal record carried no amount.
    AmountMissing,
    /// A chargeback referenced a transaction id absent from history.
    UnableToProcessTransaction,
    /// A dispute or resolve was requested with a transaction type that is
    /// neither a dispute nor a resolve.
    UnknownDisputeOrResolutionType,
    /// A deposit or withdrawal was attempted on a locked account.
    AccountLocked,
    /// A withdrawal asked for more than the available balance.
    InsufficientFunds,
    /// A dispute referenced a transaction already under dispute.
    AlreadyDisputed,
    /// A balance update would leave the representable fixed-point range.
    AmountOverflow,
}

} // verus!
