//! The handle with which a caller follows one transaction.

use vstd::prelude::*;
use futures::channel::mpsc::UnboundedReceiver;
use crate::listener::TransactionStatus;
use crate::types::TxHash;

verus! {

/// The stream of the statuses of one transaction, up to the first terminal one.
pub struct Watcher {
    hash: TxHash,
    receiver: UnboundedReceiver<TransactionStatus>,
}

impl Watcher {
    /// A watcher of `hash` that reads from `receiver`.
    pub(crate) fn new(hash: TxHash, receiver: UnboundedReceiver<TransactionStatus>) -> (r: Self)
        ensures
            r.watched() == hash,
            r.stream() == receiver,
    {
        Watcher { hash, receiver }
    }

    /// The hash that the watcher follows.
    pub closed spec fn watched(&self) -> TxHash {
        self.hash
    }

    /// The hash that the watcher follows.
    pub fn hash(&self) -> (r: TxHash)
        ensures
            r == self.watched(),
    {
        self.hash
    }

    /// The receiving half of the watcher's channel.
    pub fn into_stream(self) -> (r: UnboundedReceiver<TransactionStatus>)
        ensures
            r == self.stream(),
    {
        self.receiver
    }

    /// The receiving half of the channel on which the watcher is told the
    /// statuses of its transaction.
    pub closed spec fn stream(&self) -> UnboundedReceiver<TransactionStatus> {
        self.receiver
    }
}

} // verus!
