//! Reasons the transaction pool refuses a transaction.
use vstd::prelude::*;

verus! {

#[derive(Clone, Copy, Debug, PartialEq, Eq, Structural)]
pub enum MempoolErr {
    /// The mempool is currently full.
    Full,
    /// The appended transaction causes a double spend.
    DoubleSpend,
    /// The given transaction already exists in the mempool.
    AlreadyInMempool,
    /// The transaction is too far into the future for the current state.
    TooFarIntoFuture,
    /// The transaction has failed validation on the current state.
    BadTx,
    /// The transaction's nonce is at most the current account nonce.
    NonceLeq,
    /// The mempool already has a valid transaction set available.
    AlreadyHasTxSet,
}

} // verus!
