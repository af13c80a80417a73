use xelis_core::account::{VersionedBalance, VersionedNonce};
use xelis_core::cached_state::{
    BalanceUpdate, BlockchainVerificationState, CachedAccount, CachedState, CachedVersionedBalance,
    FetchedAccount, NonceUpdate, Updatable,
};
use xelis_core::crypto;
use xelis_core::error::BlockchainError;
use xelis_core::storage::{DifficultyProvider, Storage, StoredBalance};
use xelis_core::transaction::{Transaction, TransactionType, Transfer};

fn key(byte: u8) -> crypto::PublicKey {
    crypto::PublicKey::new([byte; 32])
}

fn asset(byte: u8) -> crypto::Hash {
    crypto::Hash::new([byte; 32])
}

fn ct(byte: u8) -> crypto::Ciphertext {
    crypto::Ciphertext::new([byte; 32], [byte.wrapping_add(1); 32])
}

/// A storage that holds some balances and nonces and records every write.
struct Recorder {
    balances: Vec<(crypto::PublicKey, StoredBalance)>,
    nonces: Vec<(crypto::PublicKey, u64, u64)>,
    balance_writes: Vec<(crypto::PublicKey, crypto::Hash, u64, VersionedBalance)>,
    nonce_writes: Vec<(crypto::PublicKey, u64, u64)>,
    fail_on_write: Option<usize>,
    fail_on_account: Option<crypto::PublicKey>,
}

impl Recorder {
    fn new() -> Recorder {
        Recorder {
            balances: Vec::new(),
            nonces: Vec::new(),
            balance_writes: Vec::new(),
            nonce_writes: Vec::new(),
            fail_on_write: None,
            fail_on_account: None,
        }
    }
}

impl DifficultyProvider for Recorder {
    fn get_height_for_block_hash(&self, hash: &crypto::Hash) -> Result<u64, BlockchainError> {
        Err(BlockchainError::BlockNotFound(*hash))
    }

    fn get_cumulative_difficulty_for_block_hash(
        &self,
        hash: &crypto::Hash,
    ) -> Result<u64, BlockchainError> {
        Err(BlockchainError::BlockNotFound(*hash))
    }
}

impl Storage for Recorder {
    fn has_nonce(&self, key: &crypto::PublicKey) -> Result<bool, BlockchainError> {
        Ok(self.nonces.iter().any(|(k, _, _)| k == key))
    }

    fn get_last_nonce(
        &self,
        key: &crypto::PublicKey,
    ) -> Result<(u64, VersionedNonce), BlockchainError> {
        for (k, topoheight, nonce) in &self.nonces {
            if k == key {
                return Ok((*topoheight, VersionedNonce::new(*nonce, None)));
            }
        }
        Err(BlockchainError::AccountNotFound(*key))
    }

    fn get_balances_at_maximum_topoheight(
        &self,
        key: &crypto::PublicKey,
        topoheight: u64,
    ) -> Result<Vec<StoredBalance>, BlockchainError> {
        if self.fail_on_account == Some(*key) {
            return Err(BlockchainError::Storage(String::from("unreadable account")));
        }
        let mut found: Vec<StoredBalance> = Vec::new();
        for (k, stored) in &self.balances {
            if k == key && stored.topoheight <= topoheight {
                found.push(*stored);
            }
        }
        Ok(found)
    }

    fn set_last_balance_to(
        &mut self,
        key: &crypto::PublicKey,
        asset: &crypto::Hash,
        topoheight: u64,
        balance: &VersionedBalance,
    ) -> Result<(), BlockchainError> {
        if self.fail_on_write == Some(self.balance_writes.len()) {
            return Err(BlockchainError::Storage(String::from("disk full")));
        }
        self.balance_writes.push((*key, *asset, topoheight, *balance));
        Ok(())
    }

    fn set_nonce_at_topoheight(
        &mut self,
        key: &crypto::PublicKey,
        topoheight: u64,
        nonce: u64,
    ) -> Result<(), BlockchainError> {
        self.nonce_writes.push((*key, topoheight, nonce));
        Ok(())
    }
}

#[test]
fn updatable_new_is_clean() {
    let value = Updatable::new(5u64);
    assert!(!value.is_modified());
    assert_eq!(*value.deref(), 5);
}

#[test]
fn updatable_read_access_leaves_it_clean() {
    let value = Updatable::new(String::from("x"));
    let _ = value.deref();
    let _ = value.deref();
    assert!(!value.is_modified());
}

#[test]
fn updatable_mutable_access_marks_it() {
    let mut value = Updatable::new(5u64);
    *value.deref_mut() = 6;
    assert!(value.is_modified());
    assert_eq!(*value.deref(), 6);
    let mut untouched = Updatable::new(1u64);
    let _ = untouched.deref_mut();
    assert!(untouched.is_modified());
    assert_eq!(*untouched.deref(), 1);
}

#[test]
fn updatable_stays_dirty() {
    let mut value = Updatable::new(1u64);
    *value.deref_mut() = 2;
    let _ = value.deref();
    *value.deref_mut() = 1;
    assert!(value.is_modified());
}

#[test]
fn effective_balance_prefers_output() {
    let without = CachedVersionedBalance::new(ct(1), None, Some(3));
    assert_eq!(*without.effective_balance(), ct(1));
    let with = CachedVersionedBalance::new(ct(1), Some(ct(2)), Some(3));
    assert_eq!(*with.effective_balance(), ct(2));
}

#[test]
fn versioned_update_balance_keeps_final() {
    let mut balance = CachedVersionedBalance::new(ct(1), None, Some(3));
    balance.update_balance(ct(9));
    assert_eq!(balance, CachedVersionedBalance::new(ct(1), Some(ct(9)), Some(3)));
    assert_eq!(*balance.effective_balance(), ct(9));
    balance.update_balance(ct(8));
    assert_eq!(balance, CachedVersionedBalance::new(ct(1), Some(ct(8)), Some(3)));
}

#[test]
fn default_balance_is_encrypted_zero() {
    let balance = CachedVersionedBalance::default();
    assert_eq!(balance, CachedVersionedBalance::new(crypto::Ciphertext::zero(), None, None));
    assert_eq!(crypto::Ciphertext::default(), crypto::Ciphertext::new([0u8; 32], [0u8; 32]));
}

#[test]
fn cached_balance_converts_to_stored_version() {
    let cached = CachedVersionedBalance::new(ct(1), Some(ct(2)), Some(7));
    let stored: VersionedBalance = VersionedBalance::from(cached);
    let mut expected = VersionedBalance::new(ct(1), Some(7));
    expected.set_output_balance(ct(2));
    assert_eq!(stored, expected);
    let plain = VersionedBalance::from(CachedVersionedBalance::new(ct(1), None, None));
    assert_eq!(plain, VersionedBalance::new(ct(1), None));
    assert_eq!(stored, cached.to_versioned());
}

#[test]
fn from_stored_links_to_the_stored_version() {
    let mut stored = VersionedBalance::new(ct(1), Some(2));
    stored.set_output_balance(ct(3));
    let cached = CachedVersionedBalance::from_stored(&stored, 10);
    assert_eq!(cached, CachedVersionedBalance::new(ct(1), Some(ct(3)), Some(10)));
}

#[test]
fn get_balance_of_unknown_account_is_zero() {
    let state = CachedState::new(5);
    assert_eq!(state.get_balance(&key(1), &asset(1)), Ok(crypto::Ciphertext::zero()));
    assert_eq!(state.topoheight(), 5);
}

#[test]
fn get_balance_of_unknown_asset_is_zero() {
    let mut state = CachedState::new(5);
    state.update_balance(&key(1), &asset(1), ct(4)).unwrap();
    assert_eq!(state.get_balance(&key(1), &asset(2)), Ok(crypto::Ciphertext::zero()));
}

#[test]
fn update_balance_then_get_balance() {
    let mut state = CachedState::new(5);
    assert_eq!(state.update_balance(&key(1), &asset(1), ct(4)), Ok(()));
    assert_eq!(state.get_balance(&key(1), &asset(1)), Ok(ct(4)));
    state.update_balance(&key(1), &asset(1), ct(5)).unwrap();
    assert_eq!(state.get_balance(&key(1), &asset(1)), Ok(ct(5)));
    state.update_balance(&key(2), &asset(1), ct(6)).unwrap();
    assert_eq!(state.get_balance(&key(1), &asset(1)), Ok(ct(5)));
    assert_eq!(state.get_balance(&key(2), &asset(1)), Ok(ct(6)));
}

#[test]
fn nonce_defaults_to_zero_and_updates() {
    let mut state = CachedState::new(0);
    assert_eq!(state.get_account_nonce(&key(1)), Ok(0));
    assert_eq!(state.update_account_nonce(&key(1), 12), Ok(()));
    assert_eq!(state.get_account_nonce(&key(1)), Ok(12));
    assert_eq!(state.get_account_nonce(&key(2)), Ok(0));
    state.update_account_nonce(&key(1), 13).unwrap();
    assert_eq!(state.get_account_nonce(&key(1)), Ok(13));
}

#[test]
fn commit_writes_only_the_dirty_entry() {
    let k1 = key(1);
    let k2 = key(2);
    let x = asset(0x58);
    let mut storage = Recorder::new();
    storage.balances.push((
        k1,
        StoredBalance { asset: x, topoheight: 7, balance: VersionedBalance::new(ct(10), Some(3)) },
    ));
    storage.balances.push((
        k2,
        StoredBalance { asset: x, topoheight: 8, balance: VersionedBalance::new(ct(20), None) },
    ));
    let mut state = CachedState::new(9);
    let tx = Transaction::new(
        k1,
        TransactionType::Transfer(vec![Transfer { to: k2, asset: x, amount: 1, extra_data: None }]),
        0,
        0,
    );
    state.init_from_storage_for_tx(&storage, &tx).unwrap();
    assert_eq!(state.get_balance(&k1, &x), Ok(ct(10)));
    assert_eq!(state.get_balance(&k2, &x), Ok(ct(20)));
    assert!(state.balance_updates(42).is_empty());

    state.update_balance(&k1, &x, ct(11)).unwrap();
    assert_eq!(state.apply_updates(&mut storage, 42), Ok(()));

    let mut expected = VersionedBalance::new(ct(10), Some(7));
    expected.set_output_balance(ct(11));
    assert_eq!(storage.balance_writes, vec![(k1, x, 42, expected)]);
    assert!(storage.nonce_writes.is_empty());
}

#[test]
fn commit_writes_one_balance_for_each_dirty_entry() {
    let mut state = CachedState::new(1);
    state.install_fetched(&FetchedAccount {
        key: key(9),
        balances: vec![StoredBalance {
            asset: asset(1),
            topoheight: 1,
            balance: VersionedBalance::new(ct(1), None),
        }],
        nonce: Some(4),
    });
    state.update_balance(&key(1), &asset(1), ct(1)).unwrap();
    state.update_balance(&key(2), &asset(1), ct(2)).unwrap();
    state.update_balance(&key(1), &asset(2), ct(3)).unwrap();
    state.update_balance(&key(1), &asset(1), ct(4)).unwrap();
    let updates = state.balance_updates(6);
    let zero = crypto::Ciphertext::zero();
    let mut first = VersionedBalance::new(zero, None);
    first.set_output_balance(ct(4));
    let mut second = VersionedBalance::new(zero, None);
    second.set_output_balance(ct(3));
    let mut third = VersionedBalance::new(zero, None);
    third.set_output_balance(ct(2));
    assert_eq!(
        updates,
        vec![
            BalanceUpdate { key: key(1), asset: asset(1), topoheight: 6, balance: first },
            BalanceUpdate { key: key(1), asset: asset(2), topoheight: 6, balance: second },
            BalanceUpdate { key: key(2), asset: asset(1), topoheight: 6, balance: third },
        ]
    );
    let mut storage = Recorder::new();
    state.apply_updates(&mut storage, 6).unwrap();
    assert_eq!(storage.balance_writes.len(), 3);
    assert!(storage.balance_writes.iter().all(|(k, _, _, _)| *k != key(9)));
}

#[test]
fn commit_writes_dirty_nonces_only() {
    let mut state = CachedState::new(1);
    state.install_nonce(key(1), 5);
    state.install_nonce(key(2), 6);
    state.update_account_nonce(&key(2), 7).unwrap();
    state.update_account_nonce(&key(3), 1).unwrap();
    assert_eq!(
        state.nonce_updates(10),
        vec![
            NonceUpdate { key: key(2), topoheight: 10, nonce: 7 },
            NonceUpdate { key: key(3), topoheight: 10, nonce: 1 },
        ]
    );
    let mut storage = Recorder::new();
    state.apply_updates(&mut storage, 10).unwrap();
    assert_eq!(storage.nonce_writes, vec![(key(2), 10, 7), (key(3), 10, 1)]);
    assert!(storage.balance_writes.is_empty());
}

#[test]
fn commit_of_a_clean_state_writes_nothing() {
    let state = CachedState::new(3);
    let mut storage = Recorder::new();
    storage.fail_on_write = Some(0);
    assert_eq!(state.apply_updates(&mut storage, 4), Ok(()));
    assert!(storage.balance_writes.is_empty());
    assert!(storage.nonce_writes.is_empty());
}

#[test]
fn commit_returns_the_first_storage_error() {
    let mut state = CachedState::new(1);
    state.update_balance(&key(1), &asset(1), ct(1)).unwrap();
    state.update_balance(&key(2), &asset(1), ct(2)).unwrap();
    state.update_balance(&key(3), &asset(1), ct(3)).unwrap();
    let mut storage = Recorder::new();
    storage.fail_on_write = Some(1);
    assert_eq!(
        state.apply_updates(&mut storage, 2),
        Err(BlockchainError::Storage(String::from("disk full")))
    );
    assert_eq!(storage.balance_writes.len(), 1);
    assert_eq!(storage.balance_writes[0].0, key(1));
}

#[test]
fn hydration_installs_every_named_account_clean() {
    let owner = key(1);
    let to = key(2);
    let mut storage = Recorder::new();
    storage.balances.push((
        owner,
        StoredBalance { asset: asset(1), topoheight: 2, balance: VersionedBalance::new(ct(5), None) },
    ));
    storage.nonces.push((owner, 2, 33));
    let mut state = CachedState::new(4);
    let tx = Transaction::new(
        owner,
        TransactionType::Transfer(vec![Transfer {
            to,
            asset: asset(1),
            amount: 3,
            extra_data: None,
        }]),
        1,
        33,
    );
    assert_eq!(state.init_from_storage_for_tx(&storage, &tx), Ok(()));
    assert_eq!(state.get_balance(&owner, &asset(1)), Ok(ct(5)));
    assert_eq!(state.get_balance(&to, &asset(1)), Ok(crypto::Ciphertext::zero()));
    assert_eq!(state.get_account_nonce(&owner), Ok(33));
    assert_eq!(state.get_account_nonce(&to), Ok(0));
    assert!(state.balance_updates(5).is_empty());
    assert!(state.nonce_updates(5).is_empty());
}

#[test]
fn hydration_ignores_versions_above_the_base() {
    let owner = key(1);
    let mut storage = Recorder::new();
    storage.balances.push((
        owner,
        StoredBalance { asset: asset(1), topoheight: 9, balance: VersionedBalance::new(ct(5), None) },
    ));
    let mut state = CachedState::new(4);
    let tx = Transaction::new(owner, TransactionType::Transfer(Vec::new()), 1, 0);
    state.init_from_storage_for_tx(&storage, &tx).unwrap();
    assert_eq!(state.get_balance(&owner, &asset(1)), Ok(crypto::Ciphertext::zero()));
}

#[test]
fn hydration_failure_leaves_the_state_alone() {
    let owner = key(1);
    let to = key(2);
    let mut storage = Recorder::new();
    storage.balances.push((
        owner,
        StoredBalance { asset: asset(1), topoheight: 2, balance: VersionedBalance::new(ct(5), None) },
    ));
    storage.fail_on_account = Some(to);
    let mut state = CachedState::new(4);
    let tx = Transaction::new(
        owner,
        TransactionType::Transfer(vec![Transfer {
            to,
            asset: asset(1),
            amount: 3,
            extra_data: None,
        }]),
        1,
        0,
    );
    assert_eq!(
        state.init_from_storage_for_tx(&storage, &tx),
        Err(BlockchainError::Storage(String::from("unreadable account")))
    );
    assert_eq!(state.get_balance(&owner, &asset(1)), Ok(crypto::Ciphertext::zero()));
}

#[test]
fn account_init_from_storage() {
    let owner = key(1);
    let mut storage = Recorder::new();
    let mut version = VersionedBalance::new(ct(5), Some(1));
    version.set_output_balance(ct(6));
    storage.balances.push((owner, StoredBalance { asset: asset(1), topoheight: 2, balance: version }));
    let mut account = CachedAccount::new();
    assert_eq!(account.init_for_account(&storage, &owner, 3), Ok(()));
    assert_eq!(
        account.get_balance(&asset(1)),
        Some(&CachedVersionedBalance::new(ct(5), Some(ct(6)), Some(2)))
    );
    assert_eq!(account.get_balance(&asset(2)), None);
    storage.fail_on_account = Some(owner);
    let mut other = CachedAccount::new();
    assert!(other.init_for_account(&storage, &owner, 3).is_err());
    assert_eq!(other.get_balance(&asset(1)), None);
}

#[test]
fn modified_accounts_of_a_transaction() {
    let owner = key(1);
    let tx = Transaction::new(
        owner,
        TransactionType::Transfer(vec![
            Transfer { to: key(2), asset: asset(1), amount: 1, extra_data: None },
            Transfer { to: key(3), asset: asset(2), amount: 2, extra_data: Some(vec![1, 2]) },
        ]),
        5,
        8,
    );
    assert_eq!(tx.get_modified_accounts(), vec![owner, owner, key(2), owner, key(3)]);
    assert_eq!(*tx.get_owner(), owner);
    assert_eq!(tx.get_fee(), 5);
    assert_eq!(tx.get_nonce(), 8);
}
