use crate::crypto;
use vstd::prelude::*;

verus! {

/// What can go wrong in the chain core.
#[derive(Clone, Debug, PartialEq, Eq)]
pub enum BlockchainError {
    /// An operation on tips was given none.
    ExpectedTips,
    /// The height above the tips does not fit in 64 bits.
    HeightOverflow,
    /// No block with this hash is known.
    BlockNotFound(crypto::Hash),
    /// No account with this key is known.
    AccountNotFound(crypto::PublicKey),
    /// The storage engine failed; the text is its report.
    Storage(String),
}

} // verus!
