use vstd::prelude::*;

verus! {

/// The five kinds of record in a transaction log.
#[derive(Debug, Clone, Copy, PartialEq, Eq, Structural)]
pub enum TransactionType {
    Deposit,
    Withdrawal,
    Dispute,
    Resolve,
    Chargeback,
}

/// One record of the log. `amount` is counted in ten-thousandths of a
/// currency unit and is present on deposits and withdrawals only.
#[derive(Debug, Clone, Copy)]
pub struct Transaction {
    pub kind: TransactionType,
    pub client: u16,
    pub tx: u32,
    pub amount: Option<i64>,
}

/// Why a deposit or a withdrawal was rejected.
#[derive(Debug, Clone, Copy, PartialEq, Eq, Structural)]
pub enum Error {
    InsufficientBalance,
    IncorrectAmount,
    MissingAmount,
}

/// Why a dispute, resolve or chargeback left the account untouched.
#[derive(Debug, Clone, Copy, PartialEq, Eq, Structural)]
pub enum IgnoreReason {
    /// The account's history holds no transaction with the referenced id.
    NotFound,
    /// The referenced transaction is not in a state that admits the request.
    WrongState,
}

/// What an accepted record did to the account.
#[derive(Debug, Clone, Copy, PartialEq, Eq, Structural)]
pub enum Outcome {
    Applied,
    Ignored(IgnoreReason),
}

} // verus!
