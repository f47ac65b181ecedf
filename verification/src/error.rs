//! Errors that the pool reports to its callers.

use vstd::prelude::*;
use crate::types::{Priority, TxHash};

verus! {

/// Why the runtime judged a transaction invalid.
#[derive(Clone, Copy, Debug, PartialEq, Eq, Structural)]
pub enum InvalidTransaction {
    /// The call of the transaction is not expected.
    Call,
    /// The sender cannot pay the fees.
    Payment,
    /// The transaction is not yet valid.
    Future,
    /// The transaction is outdated.
    Stale,
    /// The proofs of the transaction do not hold.
    BadProof,
    /// The transaction was born in a block that is no longer known.
    AncientBirthBlock,
    /// The transaction would exhaust the resources of a block.
    ExhaustsResources,
    /// Any other reason, by its code.
    Custom(u8),
}

/// Why the validity of a transaction could not be determined.
#[derive(Clone, Copy, Debug, PartialEq, Eq, Structural)]
pub enum UnknownTransaction {
    /// Data needed for the check could not be looked up.
    CannotLookup,
    /// No validator is registered for unsigned transactions.
    NoUnsignedValidator,
    /// Any other reason, by its code.
    Custom(u8),
}

/// Errors of the transaction pool.
#[derive(Clone, Copy, Debug, PartialEq, Eq, Structural)]
pub enum Error {
    /// The transaction is already in the pool.
    AlreadyImported(TxHash),
    /// The transaction is banned for the time being.
    TemporarilyBanned,
    /// A ready transaction that provides the same tag has at least this priority.
    TooLowPriority { old: Priority, new: Priority },
    /// The transaction was accepted and evicted again by the limits.
    ImmediatelyDropped,
    /// The transaction must not be propagated and this node authors no blocks.
    Unactionable,
    /// The verdict on the transaction was that it is invalid.
    InvalidTransaction(InvalidTransaction),
    /// The verdict on the transaction could not be reached.
    UnknownTransaction(UnknownTransaction),
    /// Making the transaction ready would make it depend on itself.
    CycleDetected,
    /// The transaction has unmet requirements and the pool holds no such transactions.
    RejectedFutureTransaction,
}

impl Error {
    /// Whether the error says that the transaction is invalid.
    pub fn is_invalid_transaction(&self) -> (r: bool)
        ensures
            r == (*self is InvalidTransaction),
    {
        match self {
            Error::InvalidTransaction(_) => true,
            _ => false,
        }
    }
}

} // verus!
