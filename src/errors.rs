//! The ways in which ledger operations fail.

use vstd::prelude::*;

verus! {

#[derive(Debug, Clone, Copy, PartialEq, Eq, Structural)]
pub enum LedgerError {
    /// The system clock could not be read.
    ClockError,
    /// The operating system's random generator failed.
    EntropyUnavailable,
    /// Stored bytes could not be decoded.
    CorruptData,
    /// The spendable outputs add up to less than the amount; carries the total.
    InsufficientFunds(i128),
    /// An input refers to a transaction, or an output of it, that cannot be found.
    MissingReferencedTransaction,
    /// No transaction with the requested id is on the chain.
    TransactionNotFound,
    /// A transfer was asked for an amount that is not positive.
    InvalidAmount,
    /// A secret key is too short to sign with.
    InvalidKey,
    /// A newly mined block's hash is already in use in the chain store.
    HashInUse,
    /// Every nonce was tried without meeting the difficulty target.
    NonceSpaceExhausted,
}

} // verus!
