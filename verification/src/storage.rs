use crate::account::{VersionedBalance, VersionedNonce};
use crate::crypto;
use crate::error::BlockchainError;
use vstd::prelude::*;

verus! {

/// The stored version of one asset's balance: the asset, the topoheight at which
/// the version was written, and the version.
#[derive(Clone, Copy, Debug, PartialEq, Eq)]
pub struct StoredBalance {
    pub asset: crypto::Hash,
    pub topoheight: u64,
    pub balance: VersionedBalance,
}

/// Block metadata by block hash.
///
/// An implementation answers from whatever it holds; nothing is assumed of the
/// answers, and each may fail.
pub trait DifficultyProvider {
    /// The height of the block.
    fn get_height_for_block_hash(&self, hash: &crypto::Hash) -> Result<u64, BlockchainError>;

    /// The cumulative difficulty of the block.
    fn get_cumulative_difficulty_for_block_hash(&self, hash: &crypto::Hash) -> Result<
        u64,
        BlockchainError,
    >;
}

/// The persistent state that the chain core reads and commits to.
///
/// An implementation answers from whatever it holds; nothing is assumed of the
/// answers, and each call may fail.
pub trait Storage: DifficultyProvider {
    /// Whether the account has a nonce.
    fn has_nonce(&self, key: &crypto::PublicKey) -> Result<bool, BlockchainError>;

    /// The newest nonce of the account and the topoheight at which it was written.
    fn get_last_nonce(&self, key: &crypto::PublicKey) -> Result<
        (u64, VersionedNonce),
        BlockchainError,
    >;

    /// The newest balance versions of the account at or below `topoheight`, one for each asset.
    fn get_balances_at_maximum_topoheight(
        &self,
        key: &crypto::PublicKey,
        topoheight: u64,
    ) -> Result<Vec<StoredBalance>, BlockchainError>;

    /// Writes `balance` as the version of (`key`, `asset`) at `topoheight`.
    fn set_last_balance_to(
        &mut self,
        key: &crypto::PublicKey,
        asset: &crypto::Hash,
        topoheight: u64,
        balance: &VersionedBalance,
    ) -> Result<(), BlockchainError>;

    /// Writes `nonce` as the nonce of `key` at `topoheight`.
    fn set_nonce_at_topoheight(
        &mut self,
        key: &crypto::PublicKey,
        topoheight: u64,
        nonce: u64,
    ) -> Result<(), BlockchainError>;
}

} // verus!
