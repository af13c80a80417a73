use crate::account::{BalanceView, VersionedBalance};
use crate::crypto;
use crate::error::BlockchainError;
use crate::storage::{Storage, StoredBalance};
use crate::transaction::Transaction;
use crate::vec_map::VecMap;
use vstd::prelude::*;

verus! {

/// A value together with its dirty bit, as contracts see it.
pub struct Dirty<T> {
    pub value: T,
    pub modified: bool,
}

/// A value and a dirty bit. Reading the value leaves the bit alone; handing the
/// value out for mutation sets it, and nothing clears it.
#[derive(Clone, Debug)]
pub struct Updatable<T> {
    inner: T,
    modified: bool,
}

impl<T> Updatable<T> {
    /// The wrapped value.
    pub closed spec fn value(&self) -> T {
        self.inner
    }

    /// The dirty bit.
    pub closed spec fn spec_is_modified(&self) -> bool {
        self.modified
    }

    /// Wraps `inner`, with the dirty bit clear.
    pub fn new(inner: T) -> (u: Self)
        ensures
            u.value() == inner,
            !u.is_modified(),
    {
        Updatable { inner, modified: false }
    }

    /// Whether the value was handed out for mutation.
    #[verifier::when_used_as_spec(spec_is_modified)]
    pub fn is_modified(&self) -> (b: bool)
        ensures
            b == self.is_modified(),
    {
        self.modified
    }

    /// Read access: the dirty bit stays as it is.
    pub fn deref(&self) -> (r: &T)
        ensures
            *r == self.value(),
    {
        &self.inner
    }

    /// Mutable access: the dirty bit is set, whether or not the value then changes.
    pub fn deref_mut(&mut self) -> (r: &mut T)
        ensures
            *r == old(self).value(),
            final(self).value() == *final(r),
            final(self).is_modified(),
    {
        self.modified = true;
        &mut self.inner
    }
}

/// The balance to read as current: the output balance if there is one, else the final one.
pub open spec fn effective(balance: BalanceView) -> crypto::Ciphertext {
    match balance.output_balance {
        Some(c) => c,
        None => balance.final_balance,
    }
}

/// The balance of a new entry: encrypted zero, no output balance, no earlier version.
pub open spec fn default_balance() -> BalanceView {
    BalanceView {
        output_balance: None,
        final_balance: crypto::Ciphertext::zero(),
        previous_topoheight: None,
    }
}

/// The cached version of an account's balance for one asset.
#[derive(Clone, Copy, Debug, PartialEq, Eq)]
pub struct CachedVersionedBalance {
    output_balance: Option<crypto::Ciphertext>,
    final_balance: crypto::Ciphertext,
    previous_topoheight: Option<u64>,
}

impl View for CachedVersionedBalance {
    type V = BalanceView;

    closed spec fn view(&self) -> BalanceView {
        BalanceView {
            output_balance: self.output_balance,
            final_balance: self.final_balance,
            previous_topoheight: self.previous_topoheight,
        }
    }
}

impl Default for CachedVersionedBalance {
    fn default() -> (b: Self)
        ensures
            b@ == default_balance(),
    {
        CachedVersionedBalance {
            output_balance: None,
            final_balance: crypto::Ciphertext::zero(),
            previous_topoheight: None,
        }
    }
}

impl CachedVersionedBalance {
    /// The entry with the given balances and link to the version before it.
    pub fn new(
        final_balance: crypto::Ciphertext,
        output_balance: Option<crypto::Ciphertext>,
        previous_topoheight: Option<u64>,
    ) -> (b: Self)
        ensures
            b@ == (BalanceView { output_balance, final_balance, previous_topoheight }),
    {
        CachedVersionedBalance { output_balance, final_balance, previous_topoheight }
    }

    /// The cached entry for a version read from storage, which was written at `topoheight`.
    pub fn from_stored(balance: &VersionedBalance, topoheight: u64) -> (b: Self)
        ensures
            b@ == hydrated(balance@, topoheight),
    {
        CachedVersionedBalance {
            output_balance: *balance.get_output_balance(),
            final_balance: *balance.get_final_balance(),
            previous_topoheight: Some(topoheight),
        }
    }

    /// The balance to read as current: the output balance if there is one, else the final
    /// one.
    pub fn effective_balance(&self) -> (c: &crypto::Ciphertext)
        ensures
            *c == effective(self@),
    {
        match &self.output_balance {
            Some(c) => c,
            None => &self.final_balance,
        }
    }

    /// Sets the output balance. The final balance stays as it is.
    pub fn update_balance(&mut self, ct: crypto::Ciphertext)
        ensures
            final(self)@ == (BalanceView { output_balance: Some(ct), ..old(self)@ }),
    {
        self.output_balance = Some(ct);
    }

    /// The version to store for this entry.
    pub fn to_versioned(&self) -> (v: VersionedBalance)
        ensures
            v@ == self@,
    {
        let mut v = VersionedBalance::new(self.final_balance, self.previous_topoheight);
        if let Some(balance) = self.output_balance {
            v.set_output_balance(balance);
        }
        v
    }

    /// Two entries with the same fields are the same entry.
    pub proof fn lemma_view_injective(self, other: Self)
        ensures
            self@ == other@ <==> self == other,
    {
    }
}

impl From<CachedVersionedBalance> for VersionedBalance {
    fn from(value: CachedVersionedBalance) -> (v: VersionedBalance) {
        let v = value.to_versioned();
        proof {
            v.lemma_view_injective(versioned_of(value@));
        }
        v
    }
}

impl vstd::std_specs::convert::FromSpecImpl<CachedVersionedBalance> for VersionedBalance {
    open spec fn obeys_from_spec() -> bool {
        true
    }

    open spec fn from_spec(value: CachedVersionedBalance) -> VersionedBalance {
        versioned_of(value@)
    }
}

/// The stored version with the given fields.
pub closed spec fn versioned_of(view: BalanceView) -> VersionedBalance {
    choose|v: VersionedBalance| v@ == view
}

/// The cached fields for a stored version that was written at `topoheight`.
pub open spec fn hydrated(stored: BalanceView, topoheight: u64) -> BalanceView {
    BalanceView {
        output_balance: stored.output_balance,
        final_balance: stored.final_balance,
        previous_topoheight: Some(topoheight),
    }
}

/// An entry as contracts see it.
pub open spec fn entry_view(entry: Updatable<CachedVersionedBalance>) -> Dirty<BalanceView> {
    Dirty { value: entry.value()@, modified: entry.is_modified() }
}

/// The balances of one account, by asset.
#[derive(Clone, Debug)]
pub struct CachedAccount {
    balances: VecMap<crypto::Hash, Updatable<CachedVersionedBalance>>,
}

impl View for CachedAccount {
    type V = Map<crypto::Hash, Dirty<BalanceView>>;

    open spec fn view(&self) -> Map<crypto::Hash, Dirty<BalanceView>> {
        self.entries()@.map_values(|e: Updatable<CachedVersionedBalance>| entry_view(e))
    }
}

/// The cached view of `account` after `stored[..n]` were installed, in order.
pub open spec fn with_stored(
    account: Map<crypto::Hash, Dirty<BalanceView>>,
    stored: Seq<StoredBalance>,
    n: int,
) -> Map<crypto::Hash, Dirty<BalanceView>>
    decreases n,
{
    if n <= 0 {
        account
    } else {
        with_stored(account, stored, n - 1).insert(
            stored[n - 1].asset,
            Dirty { value: hydrated(stored[n - 1].balance@, stored[n - 1].topoheight), modified: false },
        )
    }
}

/// The cached view of an account after the balance of `asset` was set to `ct`.
pub open spec fn with_balance(
    account: Map<crypto::Hash, Dirty<BalanceView>>,
    asset: crypto::Hash,
    ct: crypto::Ciphertext,
) -> Map<crypto::Hash, Dirty<BalanceView>> {
    let before = if account.contains_key(asset) {
        account[asset].value
    } else {
        default_balance()
    };
    account.insert(
        asset,
        Dirty { value: BalanceView { output_balance: Some(ct), ..before }, modified: true },
    )
}

impl CachedAccount {
    /// The entries, in insertion order.
    pub closed spec fn entries(&self) -> VecMap<crypto::Hash, Updatable<CachedVersionedBalance>> {
        self.balances
    }

    /// An account without entries.
    pub fn new() -> (a: Self)
        ensures
            a@ == Map::<crypto::Hash, Dirty<BalanceView>>::empty(),
    {
        let a = CachedAccount { balances: VecMap::new() };
        assert(a@ =~= Map::<crypto::Hash, Dirty<BalanceView>>::empty());
        a
    }

    /// The effective balance for `asset`, if the account has an entry for it.
    pub fn get_balance(&self, asset: &crypto::Hash) -> (r: Option<&CachedVersionedBalance>)
        ensures
            match r {
                Some(b) => self@.contains_key(*asset) && b@ == self@[*asset].value,
                None => !self@.contains_key(*asset),
            },
    {
        match self.balances.get(asset) {
            Some(entry) => Some(entry.deref()),
            None => None,
        }
    }

    /// Installs one stored version as a clean entry, in place of any entry for that asset.
    pub fn install(&mut self, stored: &StoredBalance)
        ensures
            final(self)@ == old(self)@.insert(
                stored.asset,
                Dirty { value: hydrated(stored.balance@, stored.topoheight), modified: false },
            ),
    {
        let entry = Updatable::new(
            CachedVersionedBalance::from_stored(&stored.balance, stored.topoheight),
        );
        self.balances.insert(stored.asset, entry);
        assert(self@ =~= old(self)@.insert(
            stored.asset,
            Dirty { value: hydrated(stored.balance@, stored.topoheight), modified: false },
        ));
    }

    /// Installs stored versions as clean entries, in order.
    pub fn install_all(&mut self, stored: &Vec<StoredBalance>)
        ensures
            final(self)@ == with_stored(old(self)@, stored@, stored@.len() as int),
    {
        let mut i: usize = 0;
        while i < stored.len()
            invariant
                0 <= i <= stored.len(),
                self@ == with_stored(old(self)@, stored@, i as int),
            decreases stored.len() - i,
        {
            self.install(&stored[i]);
            i += 1;
        }
    }

    /// Fills this account with the versions that `storage` gives for `key` at or
    /// below `topoheight`, as clean entries. An error of the storage is returned
    /// as it is, and leaves the account as it was.
    pub fn init_for_account<S: Storage>(
        &mut self,
        storage: &S,
        key: &crypto::PublicKey,
        topoheight: u64,
    ) -> (r: Result<(), BlockchainError>)
        ensures
            match r {
                Ok(()) => exists|stored: Vec<StoredBalance>| #[trigger]
                    call_ensures(
                        S::get_balances_at_maximum_topoheight,
                        (storage, key, topoheight),
                        Ok(stored),
                    ) && final(self)@ == with_stored(old(self)@, stored@, stored@.len() as int),
                Err(e) => call_ensures(
                    S::get_balances_at_maximum_topoheight,
                    (storage, key, topoheight),
                    Err(e),
                ) && final(self)@ == old(self)@,
            },
    {
        match storage.get_balances_at_maximum_topoheight(key, topoheight) {
            Ok(stored) => {
                self.install_all(&stored);
                Ok(())
            },
            Err(e) => Err(e),
        }
    }

    /// Sets the output balance for `asset`, on a default entry if there was none,
    /// and marks the entry dirty.
    pub fn update_balance(&mut self, asset: &crypto::Hash, ct: crypto::Ciphertext)
        ensures
            final(self)@ == with_balance(old(self)@, *asset, ct),
    {
        let i = match self.balances.index_of(asset) {
            Some(i) => i,
            None => self.balances.push(*asset, Updatable::new(CachedVersionedBalance::default())),
        };
        let ghost middle = self@;
        let entry = self.balances.value_at_mut(i);
        let balance = entry.deref_mut();
        balance.update_balance(ct);
        proof {
            assert(self@ =~= with_balance(old(self)@, *asset, ct));
        }
    }
}

/// An account as contracts see it.
pub open spec fn account_view(account: Updatable<CachedAccount>) -> Dirty<
    Map<crypto::Hash, Dirty<BalanceView>>,
> {
    Dirty { value: account.value()@, modified: account.is_modified() }
}

/// A nonce as contracts see it.
pub open spec fn nonce_view(nonce: Updatable<u64>) -> Dirty<u64> {
    Dirty { value: nonce.value(), modified: nonce.is_modified() }
}

/// The cached state as contracts see it.
pub struct CachedStateView {
    pub topoheight: u64,
    pub balances: Map<crypto::PublicKey, Dirty<Map<crypto::Hash, Dirty<BalanceView>>>>,
    pub nonces: Map<crypto::PublicKey, Dirty<u64>>,
}

/// The ciphertext that `get_balance` reads: the effective balance of the entry,
/// or encrypted zero where the account or the asset has no entry.
pub open spec fn balance_of(
    state: CachedStateView,
    account: crypto::PublicKey,
    asset: crypto::Hash,
) -> crypto::Ciphertext {
    if state.balances.contains_key(account) && state.balances[account].value.contains_key(asset) {
        effective(state.balances[account].value[asset].value)
    } else {
        crypto::Ciphertext::zero()
    }
}

/// The nonce that `get_account_nonce` reads: the cached one, or zero for an unknown account.
pub open spec fn nonce_of(state: CachedStateView, account: crypto::PublicKey) -> u64 {
    if state.nonces.contains_key(account) {
        state.nonces[account].value
    } else {
        0
    }
}

/// The balances of `account` in `state`, empty where it has none.
pub open spec fn balances_of(state: CachedStateView, account: crypto::PublicKey) -> Map<
    crypto::Hash,
    Dirty<BalanceView>,
> {
    if state.balances.contains_key(account) {
        state.balances[account].value
    } else {
        Map::empty()
    }
}

/// The state after the balance of (`account`, `asset`) was set to `ct`: the
/// entry and its account are dirty, everything else is as before.
pub open spec fn state_with_balance(
    state: CachedStateView,
    account: crypto::PublicKey,
    asset: crypto::Hash,
    ct: crypto::Ciphertext,
) -> CachedStateView {
    CachedStateView {
        balances: state.balances.insert(
            account,
            Dirty { value: with_balance(balances_of(state, account), asset, ct), modified: true },
        ),
        ..state
    }
}

/// The state after the nonce of `account` was set to `nonce`.
pub open spec fn state_with_nonce(
    state: CachedStateView,
    account: crypto::PublicKey,
    nonce: u64,
) -> CachedStateView {
    CachedStateView {
        nonces: state.nonces.insert(account, Dirty { value: nonce, modified: true }),
        ..state
    }
}

/// The read and write access that transaction verification needs.
pub trait BlockchainVerificationState {
    type Error;

    /// The balance ciphertext of `account` for `asset`.
    fn get_balance(&self, account: &crypto::PublicKey, asset: &crypto::Hash) -> Result<
        crypto::Ciphertext,
        Self::Error,
    >;

    /// Sets the balance ciphertext of `account` for `asset`.
    fn update_balance(
        &mut self,
        account: &crypto::PublicKey,
        asset: &crypto::Hash,
        new_balance: crypto::Ciphertext,
    ) -> Result<(), Self::Error>;

    /// The nonce of `account`.
    fn get_account_nonce(&self, account: &crypto::PublicKey) -> Result<u64, Self::Error>;

    /// Sets the nonce of `account`.
    fn update_account_nonce(&mut self, account: &crypto::PublicKey, new_nonce: u64) -> Result<
        (),
        Self::Error,
    >;
}

/// The staging view of balances and nonces for one verification batch, based on
/// the chain state at `topoheight`.
#[derive(Clone, Debug)]
pub struct CachedState {
    topoheight: u64,
    balances: VecMap<crypto::PublicKey, Updatable<CachedAccount>>,
    nonces: VecMap<crypto::PublicKey, Updatable<u64>>,
}

impl View for CachedState {
    type V = CachedStateView;

    open spec fn view(&self) -> CachedStateView {
        CachedStateView {
            topoheight: self.spec_topoheight(),
            balances: self.accounts()@.map_values(|a: Updatable<CachedAccount>| account_view(a)),
            nonces: self.account_nonces()@.map_values(|n: Updatable<u64>| nonce_view(n)),
        }
    }
}

impl CachedState {
    /// The topoheight on which this state is based.
    pub closed spec fn spec_topoheight(&self) -> u64 {
        self.topoheight
    }

    /// The accounts, in insertion order.
    pub closed spec fn accounts(&self) -> VecMap<crypto::PublicKey, Updatable<CachedAccount>> {
        self.balances
    }

    /// The nonces, in insertion order.
    pub closed spec fn account_nonces(&self) -> VecMap<crypto::PublicKey, Updatable<u64>> {
        self.nonces
    }

    /// An empty state based on `topoheight`.
    pub fn new(topoheight: u64) -> (s: Self)
        ensures
            s@ == (CachedStateView {
                topoheight,
                balances: Map::empty(),
                nonces: Map::empty(),
            }),
    {
        let s = CachedState { topoheight, balances: VecMap::new(), nonces: VecMap::new() };
        assert(s@.balances =~= Map::empty());
        assert(s@.nonces =~= Map::empty());
        s
    }

    /// The topoheight on which this state is based.
    #[verifier::when_used_as_spec(spec_topoheight)]
    pub fn topoheight(&self) -> (t: u64)
        ensures
            t == self.spec_topoheight(),
    {
        self.topoheight
    }

    /// Installs `account` for `key` as a clean entry, in place of any entry for that key.
    pub fn install_account(&mut self, key: crypto::PublicKey, account: CachedAccount)
        ensures
            final(self)@ == (CachedStateView {
                balances: old(self)@.balances.insert(
                    key,
                    Dirty { value: account@, modified: false },
                ),
                ..old(self)@
            }),
    {
        self.balances.insert(key, Updatable::new(account));
        assert(self@.balances =~= old(self)@.balances.insert(
            key,
            Dirty { value: account@, modified: false },
        ));
    }

    /// Installs `nonce` for `key` as a clean entry, in place of any entry for that key.
    pub fn install_nonce(&mut self, key: crypto::PublicKey, nonce: u64)
        ensures
            final(self)@ == (CachedStateView {
                nonces: old(self)@.nonces.insert(key, Dirty { value: nonce, modified: false }),
                ..old(self)@
            }),
    {
        self.nonces.insert(key, Updatable::new(nonce));
        assert(self@.nonces =~= old(self)@.nonces.insert(
            key,
            Dirty { value: nonce, modified: false },
        ));
    }
}

impl BlockchainVerificationState for CachedState {
    type Error = ();

    /// The effective balance of the cached entry; encrypted zero where the
    /// account or the asset has none. Storage is not consulted.
    fn get_balance(&self, account: &crypto::PublicKey, asset: &crypto::Hash) -> (r: Result<
        crypto::Ciphertext,
        (),
    >)
        ensures
            r == Ok::<crypto::Ciphertext, ()>(balance_of(self@, *account, *asset)),
    {
        let entry = match self.balances.get(account) {
            Some(entry) => entry,
            None => {
                return Ok(crypto::Ciphertext::zero());
            },
        };
        let balance = match entry.deref().get_balance(asset) {
            Some(balance) => balance,
            None => {
                return Ok(crypto::Ciphertext::zero());
            },
        };
        Ok(*balance.effective_balance())
    }

    /// Sets the output balance of the entry, on a default account and a default
    /// entry where there was none, and marks both dirty.
    fn update_balance(
        &mut self,
        account: &crypto::PublicKey,
        asset: &crypto::Hash,
        new_balance: crypto::Ciphertext,
    ) -> (r: Result<(), ()>)
        ensures
            r is Ok,
            final(self)@ == state_with_balance(old(self)@, *account, *asset, new_balance),
    {
        let i = match self.balances.index_of(account) {
            Some(i) => i,
            None => self.balances.push(*account, Updatable::new(CachedAccount::new())),
        };
        let entry = self.balances.value_at_mut(i);
        let cached = entry.deref_mut();
        cached.update_balance(asset, new_balance);
        proof {
            assert(self@.balances =~= state_with_balance(
                old(self)@,
                *account,
                *asset,
                new_balance,
            ).balances);
        }
        Ok(())
    }

    /// The cached nonce, or zero for an account that has none.
    fn get_account_nonce(&self, account: &crypto::PublicKey) -> (r: Result<u64, ()>)
        ensures
            r == Ok::<u64, ()>(nonce_of(self@, *account)),
    {
        match self.nonces.get(account) {
            Some(entry) => Ok(*entry.deref()),
            None => Ok(0),
        }
    }

    /// Sets the nonce, on a new entry where there was none, and marks it dirty.
    fn update_account_nonce(&mut self, account: &crypto::PublicKey, new_nonce: u64) -> (r: Result<
        (),
        (),
    >)
        ensures
            r is Ok,
            final(self)@ == state_with_nonce(old(self)@, *account, new_nonce),
    {
        let i = match self.nonces.index_of(account) {
            Some(i) => i,
            None => self.nonces.push(*account, Updatable::new(0)),
        };
        let entry = self.nonces.value_at_mut(i);
        let nonce = entry.deref_mut();
        *nonce = new_nonce;
        proof {
            assert(self@.nonces =~= state_with_nonce(old(self)@, *account, new_nonce).nonces);
        }
        Ok(())
    }
}

/// One balance version to write at commit.
#[derive(Clone, Copy, Debug, PartialEq, Eq)]
pub struct BalanceUpdate {
    pub key: crypto::PublicKey,
    pub asset: crypto::Hash,
    pub topoheight: u64,
    pub balance: VersionedBalance,
}

/// A balance write as contracts see it.
pub struct BalanceUpdateView {
    pub key: crypto::PublicKey,
    pub asset: crypto::Hash,
    pub topoheight: u64,
    pub balance: BalanceView,
}

impl View for BalanceUpdate {
    type V = BalanceUpdateView;

    open spec fn view(&self) -> BalanceUpdateView {
        BalanceUpdateView {
            key: self.key,
            asset: self.asset,
            topoheight: self.topoheight,
            balance: self.balance@,
        }
    }
}

impl DeepView for BalanceUpdate {
    type V = BalanceUpdateView;

    open spec fn deep_view(&self) -> BalanceUpdateView {
        self@
    }
}

/// One nonce to write at commit.
#[derive(Clone, Copy, Debug, PartialEq, Eq)]
pub struct NonceUpdate {
    pub key: crypto::PublicKey,
    pub topoheight: u64,
    pub nonce: u64,
}

/// The writes for the dirty entries among the first `n` of an account, in order.
pub open spec fn account_updates(
    key: crypto::PublicKey,
    topoheight: u64,
    entries: VecMap<crypto::Hash, Updatable<CachedVersionedBalance>>,
    n: int,
) -> Seq<BalanceUpdateView>
    decreases n,
{
    if n <= 0 {
        Seq::empty()
    } else {
        let before = account_updates(key, topoheight, entries, n - 1);
        let entry = entries.values()[n - 1];
        if entry.is_modified() {
            before.push(
                BalanceUpdateView {
                    key,
                    asset: entries.keys()[n - 1],
                    topoheight,
                    balance: entry.value()@,
                },
            )
        } else {
            before
        }
    }
}

/// The writes for the dirty entries of the dirty accounts among the first `n`, in order.
pub open spec fn state_updates(
    topoheight: u64,
    accounts: VecMap<crypto::PublicKey, Updatable<CachedAccount>>,
    n: int,
) -> Seq<BalanceUpdateView>
    decreases n,
{
    if n <= 0 {
        Seq::empty()
    } else {
        let before = state_updates(topoheight, accounts, n - 1);
        let account = accounts.values()[n - 1];
        if account.is_modified() {
            before + account_updates(
                accounts.keys()[n - 1],
                topoheight,
                account.value().entries(),
                account.value().entries().keys().len() as int,
            )
        } else {
            before
        }
    }
}

/// The writes for the dirty nonces among the first `n`, in order.
pub open spec fn nonce_updates_of(
    topoheight: u64,
    nonces: VecMap<crypto::PublicKey, Updatable<u64>>,
    n: int,
) -> Seq<NonceUpdate>
    decreases n,
{
    if n <= 0 {
        Seq::empty()
    } else {
        let before = nonce_updates_of(topoheight, nonces, n - 1);
        let nonce = nonces.values()[n - 1];
        if nonce.is_modified() {
            before.push(NonceUpdate { key: nonces.keys()[n - 1], topoheight, nonce: nonce.value() })
        } else {
            before
        }
    }
}

impl CachedAccount {
    /// Appends to `updates` one write for each dirty entry, in insertion order.
    pub fn collect_updates(
        &self,
        key: &crypto::PublicKey,
        topoheight: u64,
        updates: &mut Vec<BalanceUpdate>,
    )
        ensures
            final(updates).deep_view() == old(updates).deep_view() + account_updates(
                *key,
                topoheight,
                self.entries(),
                self.entries().keys().len() as int,
            ),
    {
        let count = self.balances.len();
        let mut i: usize = 0;
        assert(updates.deep_view() =~= old(updates).deep_view() + account_updates(
            *key,
            topoheight,
            self.entries(),
            0,
        ));
        while i < count
            invariant
                0 <= i <= count,
                count == self.entries().keys().len(),
                count == self.entries().values().len(),
                updates.deep_view() == old(updates).deep_view() + account_updates(
                    *key,
                    topoheight,
                    self.entries(),
                    i as int,
                ),
            decreases count - i,
        {
            let entry = self.balances.value_at(i);
            if entry.is_modified() {
                let ghost before = updates.deep_view();
                let update = BalanceUpdate {
                    key: *key,
                    asset: *self.balances.key_at(i),
                    topoheight,
                    balance: entry.deref().to_versioned(),
                };
                updates.push(update);
                assert(updates.deep_view() =~= before.push(update@));
            }
            i += 1;
            assert(updates.deep_view() =~= old(updates).deep_view() + account_updates(
                *key,
                topoheight,
                self.entries(),
                i as int,
            ));
        }
    }
}

impl CachedState {
    /// The balance writes that a commit at `topoheight` makes: one for each
    /// dirty entry of each dirty account, in insertion order.
    pub open spec fn pending_balances(&self, topoheight: u64) -> Seq<BalanceUpdateView> {
        state_updates(topoheight, self.accounts(), self.accounts().keys().len() as int)
    }

    /// The nonce writes that a commit at `topoheight` makes: one for each dirty
    /// nonce, in insertion order.
    pub open spec fn pending_nonces(&self, topoheight: u64) -> Seq<NonceUpdate> {
        nonce_updates_of(
            topoheight,
            self.account_nonces(),
            self.account_nonces().keys().len() as int,
        )
    }

    /// The balance writes that a commit at `topoheight` makes.
    pub fn balance_updates(&self, topoheight: u64) -> (updates: Vec<BalanceUpdate>)
        ensures
            updates.deep_view() == self.pending_balances(topoheight),
    {
        let mut updates: Vec<BalanceUpdate> = Vec::new();
        let count = self.balances.len();
        let mut i: usize = 0;
        assert(updates.deep_view() =~= state_updates(topoheight, self.accounts(), 0));
        while i < count
            invariant
                0 <= i <= count,
                count == self.accounts().keys().len(),
                count == self.accounts().values().len(),
                updates.deep_view() == state_updates(topoheight, self.accounts(), i as int),
            decreases count - i,
        {
            let account = self.balances.value_at(i);
            if account.is_modified() {
                account.deref().collect_updates(self.balances.key_at(i), topoheight, &mut updates);
            }
            i += 1;
        }
        updates
    }

    /// The nonce writes that a commit at `topoheight` makes.
    pub fn nonce_updates(&self, topoheight: u64) -> (updates: Vec<NonceUpdate>)
        ensures
            updates@ == self.pending_nonces(topoheight),
    {
        let mut updates: Vec<NonceUpdate> = Vec::new();
        let count = self.nonces.len();
        let mut i: usize = 0;
        while i < count
            invariant
                0 <= i <= count,
                count == self.account_nonces().keys().len(),
                count == self.account_nonces().values().len(),
                updates@ == nonce_updates_of(topoheight, self.account_nonces(), i as int),
            decreases count - i,
        {
            let entry = self.nonces.value_at(i);
            if entry.is_modified() {
                updates.push(
                    NonceUpdate { key: *self.nonces.key_at(i), topoheight, nonce: *entry.deref() },
                );
            }
            i += 1;
        }
        updates
    }

    /// The writes that a commit at `topoheight` makes: the balances, then the nonces.
    pub open spec fn pending_writes(&self, topoheight: u64) -> Seq<PendingWrite> {
        self.pending_balances(topoheight).map_values(|u: BalanceUpdateView| PendingWrite::Balance(u))
            + self.pending_nonces(topoheight).map_values(|u: NonceUpdate| PendingWrite::Nonce(u))
    }

    /// Writes every dirty balance, then every dirty nonce, to `storage` at
    /// `topoheight`, and stops at the first write that fails, returning its
    /// error. Nothing is rolled back.
    ///
    /// The writes that are made are the first of `pending_writes`, in order:
    /// all of them where the result is `Ok`; where it is an error, the last
    /// write that was made gave that error, and the writes before it succeeded.
    /// With nothing dirty, no write is made and the result is `Ok`.
    pub fn apply_updates<S: Storage>(&self, storage: &mut S, topoheight: u64) -> (r: Result<
        (),
        BlockchainError,
    >)
        ensures
            exists|made: int| #[trigger]
                commit_made::<S>(self.pending_writes(topoheight), made, r),
            self.pending_writes(topoheight).len() == 0 ==> r is Ok && *final(storage) == *old(
                storage,
            ),
    {
        let ghost writes = self.pending_writes(topoheight);
        let balances = self.balance_updates(topoheight);
        let mut i: usize = 0;
        while i < balances.len()
            invariant
                0 <= i <= balances.len(),
                balances.deep_view() == self.pending_balances(topoheight),
                writes == self.pending_writes(topoheight),
                i == 0 ==> *storage == *old(storage),
                forall|j: int| 0 <= j < i ==> may_write::<S>(#[trigger] writes[j], Ok(())),
            decreases balances.len() - i,
        {
            let update = &balances[i];
            let result = storage.set_last_balance_to(
                &update.key,
                &update.asset,
                update.topoheight,
                &update.balance,
            );
            let ghost outcome = result;
            proof {
                assert(writes[i as int] == PendingWrite::Balance(update@));
                assert(may_write::<S>(writes[i as int], outcome));
            }
            if let Err(e) = result {
                assert(commit_made::<S>(writes, i + 1, Err(e)));
                return Err(e);
            }
            proof {
                lemma_ok_is_unit(outcome);
            }
            i += 1;
        }
        let nonces = self.nonce_updates(topoheight);
        let ghost first = balances.len() as int;
        let mut j: usize = 0;
        while j < nonces.len()
            invariant
                0 <= j <= nonces.len(),
                first == self.pending_balances(topoheight).len(),
                nonces@ == self.pending_nonces(topoheight),
                writes == self.pending_writes(topoheight),
                first + j == 0 ==> *storage == *old(storage),
                forall|k: int| 0 <= k < first + j ==> may_write::<S>(#[trigger] writes[k], Ok(())),
            decreases nonces.len() - j,
        {
            let update = &nonces[j];
            let result = storage.set_nonce_at_topoheight(
                &update.key,
                update.topoheight,
                update.nonce,
            );
            let ghost outcome = result;
            proof {
                assert(exists|call: &mut S| #[trigger]
                    call_ensures(
                        S::set_nonce_at_topoheight,
                        (call, &update.key, update.topoheight, update.nonce),
                        outcome,
                    ));
                let write = PendingWrite::Nonce(*update);
                assert(write matches PendingWrite::Nonce(u) && u == *update);
                assert(may_write::<S>(write, outcome));
                assert(writes[first + j] == write);
            }
            if let Err(e) = result {
                assert(commit_made::<S>(writes, first + j + 1, Err(e)));
                return Err(e);
            }
            proof {
                lemma_ok_is_unit(outcome);
            }
            j += 1;
        }
        assert(commit_made::<S>(writes, writes.len() as int, Ok(())));
        Ok(())
    }
}

/// There is one value without content.
proof fn lemma_unit(unit: ())
    ensures
        unit == (),
{
}

/// A result without a value that is `Ok` is `Ok(())`.
proof fn lemma_ok_is_unit(result: Result<(), BlockchainError>)
    requires
        result is Ok,
    ensures
        result == Ok::<(), BlockchainError>(()),
{
    lemma_unit(result->Ok_0);
    assert(result == Ok::<(), BlockchainError>(result->Ok_0));
}

/// One write of a commit.
pub enum PendingWrite {
    Balance(BalanceUpdateView),
    Nonce(NonceUpdate),
}

/// Whether `result` is what a storage of type `S` may give for `write`.
pub open spec fn may_write<S: Storage>(
    write: PendingWrite,
    result: Result<(), BlockchainError>,
) -> bool {
    match write {
        PendingWrite::Balance(update) => exists|storage: &mut S, balance: VersionedBalance|
            balance@ == update.balance && #[trigger] call_ensures(
                S::set_last_balance_to,
                (storage, &update.key, &update.asset, update.topoheight, &balance),
                result,
            ),
        PendingWrite::Nonce(update) => exists|storage: &mut S| #[trigger]
            call_ensures(
                S::set_nonce_at_topoheight,
                (storage, &update.key, update.topoheight, update.nonce),
                result,
            ),
    }
}

/// Whether a commit that ended with `result` made the first `made` of
/// `writes`: all of them with `Ok`; with an error, at least one, of which the
/// last gave the error and the others succeeded.
pub open spec fn commit_made<S: Storage>(
    writes: Seq<PendingWrite>,
    made: int,
    result: Result<(), BlockchainError>,
) -> bool {
    &&& 0 <= made <= writes.len()
    &&& result is Ok ==> made == writes.len()
    &&& result is Err ==> made >= 1
    &&& forall|i: int|
        0 <= i < made ==> may_write::<S>(
            #[trigger] writes[i],
            if result is Err && i == made - 1 {
                result
            } else {
                Ok(())
            },
        )
}

/// What storage holds for one account: the newest version of each of its
/// balances, and its nonce if it has one.
#[derive(Debug)]
pub struct FetchedAccount {
    pub key: crypto::PublicKey,
    pub balances: Vec<StoredBalance>,
    pub nonce: Option<u64>,
}

/// A fetched account as contracts see it.
pub struct FetchedAccountView {
    pub key: crypto::PublicKey,
    pub balances: Seq<StoredBalance>,
    pub nonce: Option<u64>,
}

impl View for FetchedAccount {
    type V = FetchedAccountView;

    open spec fn view(&self) -> FetchedAccountView {
        FetchedAccountView { key: self.key, balances: self.balances@, nonce: self.nonce }
    }
}

impl DeepView for FetchedAccount {
    type V = FetchedAccountView;

    open spec fn deep_view(&self) -> FetchedAccountView {
        self@
    }
}

/// The state after one fetched account was installed: its balances replace any
/// cached account for that key, its nonce any cached nonce, both as clean entries.
pub open spec fn with_account(state: CachedStateView, fetched: FetchedAccountView) -> CachedStateView {
    CachedStateView {
        topoheight: state.topoheight,
        balances: state.balances.insert(
            fetched.key,
            Dirty {
                value: with_stored(Map::empty(), fetched.balances, fetched.balances.len() as int),
                modified: false,
            },
        ),
        nonces: match fetched.nonce {
            Some(nonce) => state.nonces.insert(fetched.key, Dirty { value: nonce, modified: false }),
            None => state.nonces,
        },
    }
}

/// The state after `fetched[..n]` were installed, in order.
pub open spec fn with_fetched(
    state: CachedStateView,
    fetched: Seq<FetchedAccountView>,
    n: int,
) -> CachedStateView
    decreases n,
{
    if n <= 0 {
        state
    } else {
        with_account(with_fetched(state, fetched, n - 1), fetched[n - 1])
    }
}

/// The keys of `fetched`, in order.
pub open spec fn fetched_keys(fetched: Seq<FetchedAccountView>) -> Seq<crypto::PublicKey> {
    Seq::new(fetched.len(), |i: int| fetched[i].key)
}

/// Whether `key` is the key of one of `fetched[..n]`.
pub open spec fn fetched_has(fetched: Seq<FetchedAccountView>, n: int, key: crypto::PublicKey) -> bool {
    exists|i: int| 0 <= i < n && i < fetched.len() && #[trigger] fetched[i].key == key
}

/// Whether `after` holds for `key` the account and the nonce that `before` holds.
pub open spec fn same_account(
    before: CachedStateView,
    after: CachedStateView,
    key: crypto::PublicKey,
) -> bool {
    &&& after.balances.contains_key(key) == before.balances.contains_key(key)
    &&& before.balances.contains_key(key) ==> after.balances[key] == before.balances[key]
    &&& after.nonces.contains_key(key) == before.nonces.contains_key(key)
    &&& before.nonces.contains_key(key) ==> after.nonces[key] == before.nonces[key]
}

/// After installation every fetched account is cached and clean, the accounts
/// that were not fetched are as before, and the base topoheight is unchanged.
pub proof fn lemma_with_fetched(state: CachedStateView, fetched: Seq<FetchedAccountView>, n: int)
    requires
        0 <= n <= fetched.len(),
    ensures
        with_fetched(state, fetched, n).topoheight == state.topoheight,
        forall|key: crypto::PublicKey| #[trigger]
            fetched_has(fetched, n, key) ==> with_fetched(state, fetched, n).balances.contains_key(
                key,
            ) && !with_fetched(state, fetched, n).balances[key].modified,
        forall|key: crypto::PublicKey|
            !#[trigger] fetched_has(fetched, n, key) ==> same_account(
                state,
                with_fetched(state, fetched, n),
                key,
            ),
    decreases n,
{
    if n > 0 {
        lemma_with_fetched(state, fetched, n - 1);
        let before = with_fetched(state, fetched, n - 1);
        let after = with_fetched(state, fetched, n);
        assert forall|key: crypto::PublicKey| #[trigger]
            fetched_has(fetched, n, key) implies after.balances.contains_key(key)
            && !after.balances[key].modified by {
            if fetched[n - 1].key != key {
                let i = choose|i: int| 0 <= i < n && i < fetched.len() && #[trigger] fetched[i].key == key;
                assert(fetched_has(fetched, n - 1, key));
            }
        }
        assert forall|key: crypto::PublicKey| !#[trigger] fetched_has(
            fetched,
            n,
            key,
        ) implies same_account(state, after, key) by {
            assert(fetched[n - 1].key != key);
            if fetched_has(fetched, n - 1, key) {
                let i = choose|i: int|
                    0 <= i < n - 1 && i < fetched.len() && #[trigger] fetched[i].key == key;
                assert(fetched_has(fetched, n, key));
            }
        }
    }
}

impl CachedState {
    /// Installs one fetched account.
    pub fn install_fetched(&mut self, fetched: &FetchedAccount)
        ensures
            final(self)@ == with_account(old(self)@, fetched@),
    {
        let mut account = CachedAccount::new();
        account.install_all(&fetched.balances);
        self.install_account(fetched.key, account);
        if let Some(nonce) = fetched.nonce {
            self.install_nonce(fetched.key, nonce);
        }
    }

    /// Installs fetched accounts, in order.
    pub fn hydrate(&mut self, fetched: &Vec<FetchedAccount>)
        ensures
            final(self)@ == with_fetched(old(self)@, fetched.deep_view(), fetched@.len() as int),
    {
        let mut i: usize = 0;
        while i < fetched.len()
            invariant
                0 <= i <= fetched.len(),
                self@ == with_fetched(old(self)@, fetched.deep_view(), i as int),
            decreases fetched.len() - i,
        {
            self.install_fetched(&fetched[i]);
            i += 1;
        }
    }

    /// Fetches from `storage`, at the base topoheight, every account that `tx`
    /// touches, and installs what was fetched. An account's nonce is fetched where
    /// the storage says that it has one. The first error of the storage ends the
    /// fetching, is returned as it is, and leaves the state as it was.
    pub fn init_from_storage_for_tx<S: Storage>(&mut self, storage: &S, tx: &Transaction) -> (r:
        Result<(), BlockchainError>)
        ensures
            match r {
                Ok(()) => exists|fetched: Seq<FetchedAccountView>|
                    {
                        &&& fetched_keys(fetched) == tx.modified_accounts()
                        &&& forall|i: int|
                            0 <= i < fetched.len() ==> fetched_from(
                                storage,
                                old(self)@.topoheight,
                                #[trigger] fetched[i],
                            )
                        &&& final(self)@ == #[trigger] with_fetched(
                            old(self)@,
                            fetched,
                            fetched.len() as int,
                        )
                    },
                Err(e) => final(self)@ == old(self)@ && exists|i: int|
                    0 <= i < tx.modified_accounts().len() && fetch_failed(
                        storage,
                        old(self)@.topoheight,
                        #[trigger] tx.modified_accounts()[i],
                        e,
                    ),
            },
    {
        let accounts = tx.get_modified_accounts();
        let mut fetched: Vec<FetchedAccount> = Vec::new();
        let mut i: usize = 0;
        while i < accounts.len()
            invariant
                0 <= i <= accounts.len(),
                self@ == old(self)@,
                accounts@ == tx.modified_accounts(),
                fetched_keys(fetched.deep_view()) == accounts@.take(i as int),
                forall|j: int|
                    0 <= j < i ==> fetched_from(
                        storage,
                        self@.topoheight,
                        #[trigger] fetched.deep_view()[j],
                    ),
            decreases accounts.len() - i,
        {
            let key = accounts[i];
            let balances = match storage.get_balances_at_maximum_topoheight(&key, self.topoheight) {
                Ok(balances) => balances,
                Err(e) => {
                    assert(fetch_failed(storage, self@.topoheight, accounts@[i as int], e));
                    return Err(e);
                },
            };
            let has_nonce = match storage.has_nonce(&key) {
                Ok(has_nonce) => has_nonce,
                Err(e) => {
                    assert(fetch_failed(storage, self@.topoheight, accounts@[i as int], e));
                    return Err(e);
                },
            };
            let nonce = if has_nonce {
                match storage.get_last_nonce(&key) {
                    Ok((at, version)) => {
                        assert(call_ensures(S::get_last_nonce, (storage, &key), Ok((at, version))));
                        Some(version.get_nonce())
                    },
                    Err(e) => {
                        assert(fetch_failed(storage, self@.topoheight, accounts@[i as int], e));
                        return Err(e);
                    },
                }
            } else {
                None
            };
            let ghost before = fetched.deep_view();
            proof {
                assert(call_ensures(
                    S::get_balances_at_maximum_topoheight,
                    (storage, &key, self@.topoheight),
                    Ok(balances),
                ));
                assert(call_ensures(S::has_nonce, (storage, &key), Ok(has_nonce)));
            }
            let account = FetchedAccount { key, balances, nonce };
            let ghost added = account@;
            proof {
                assert(exists|stored: Vec<StoredBalance>|
                    stored@ == added.balances && #[trigger] call_ensures(
                        S::get_balances_at_maximum_topoheight,
                        (storage, &added.key, self@.topoheight),
                        Ok(stored),
                    ));
                assert(fetched_from(storage, self@.topoheight, added));
            }
            fetched.push(account);
            i += 1;
            proof {
                assert(fetched.deep_view() =~= before.push(added));
                let now = fetched_keys(fetched.deep_view());
                assert(fetched_keys(before).len() == accounts@.take(i - 1).len());
                assert forall|j: int| 0 <= j < i implies now[j] == accounts@[j] by {
                    if j < i - 1 {
                        assert(fetched_keys(before)[j] == accounts@.take(i - 1)[j]);
                    }
                }
                assert(now =~= accounts@.take(i as int));
                assert forall|j: int| 0 <= j < i implies fetched_from(
                    storage,
                    self@.topoheight,
                    #[trigger] fetched.deep_view()[j],
                ) by {
                    if j < i - 1 {
                        assert(fetched.deep_view()[j] == before[j]);
                    }
                }
            }
        }
        assert(accounts@.take(accounts@.len() as int) =~= accounts@);
        self.hydrate(&fetched);
        Ok(())
    }
}

/// Whether `account` is what `storage` may give for its key at `topoheight`:
/// its balances, and its nonce where `storage` says that the account has one.
pub open spec fn fetched_from<S: Storage>(
    storage: &S,
    topoheight: u64,
    account: FetchedAccountView,
) -> bool {
    &&& exists|balances: Vec<StoredBalance>|
        balances@ == account.balances && #[trigger] call_ensures(
            S::get_balances_at_maximum_topoheight,
            (storage, &account.key, topoheight),
            Ok(balances),
        )
    &&& match account.nonce {
        None => call_ensures(S::has_nonce, (storage, &account.key), Ok(false)),
        Some(nonce) => call_ensures(S::has_nonce, (storage, &account.key), Ok(true)) && exists|
            at: u64,
            version: crate::account::VersionedNonce,
        |
            version.spec_nonce() == nonce && #[trigger] call_ensures(
                S::get_last_nonce,
                (storage, &account.key),
                Ok((at, version)),
            ),
    }
}

/// Whether `error` is what `storage` may give while the account of `key` is fetched.
pub open spec fn fetch_failed<S: Storage>(
    storage: &S,
    topoheight: u64,
    key: crypto::PublicKey,
    error: BlockchainError,
) -> bool {
    ||| call_ensures(S::get_balances_at_maximum_topoheight, (storage, &key, topoheight), Err(error))
    ||| call_ensures(S::has_nonce, (storage, &key), Err(error))
    ||| call_ensures(S::get_last_nonce, (storage, &key), Err(error))
}

/// A balance that was just set is the balance that is read, and the final
/// balance of the entry is the one it had.
pub proof fn lemma_balance_after_update(
    state: CachedStateView,
    account: crypto::PublicKey,
    asset: crypto::Hash,
    ct: crypto::Ciphertext,
)
    ensures
        balance_of(state_with_balance(state, account, asset, ct), account, asset) == ct,
        state_with_balance(state, account, asset, ct).balances[account].value[asset].value.final_balance
            == (if state.balances.contains_key(account) && state.balances[account].value.contains_key(
            asset,
        ) {
            state.balances[account].value[asset].value.final_balance
        } else {
            crypto::Ciphertext::zero()
        }),
{
}

/// Setting one balance changes no other balance that is read.
pub proof fn lemma_other_balance_after_update(
    state: CachedStateView,
    account: crypto::PublicKey,
    asset: crypto::Hash,
    ct: crypto::Ciphertext,
    other_account: crypto::PublicKey,
    other_asset: crypto::Hash,
)
    requires
        other_account != account || other_asset != asset,
    ensures
        balance_of(state_with_balance(state, account, asset, ct), other_account, other_asset)
            == balance_of(state, other_account, other_asset),
{
}

/// An account that was never written reads as encrypted zero.
pub proof fn lemma_balance_of_unknown(
    state: CachedStateView,
    account: crypto::PublicKey,
    asset: crypto::Hash,
)
    requires
        !state.balances.contains_key(account),
    ensures
        balance_of(state, account, asset) == crypto::Ciphertext::zero(),
{
}

/// A nonce that was just set is the nonce that is read, and its entry is dirty.
pub proof fn lemma_nonce_after_update(state: CachedStateView, account: crypto::PublicKey, nonce: u64)
    ensures
        nonce_of(state_with_nonce(state, account, nonce), account) == nonce,
        state_with_nonce(state, account, nonce).nonces[account].modified,
{
}

impl CachedAccount {
    /// No asset has two entries.
    pub open spec fn well_formed(&self) -> bool {
        self.entries().well_formed()
    }
}

impl CachedState {
    /// No account and no asset of an account has two entries.
    pub open spec fn well_formed(&self) -> bool {
        &&& self.accounts().well_formed()
        &&& self.account_nonces().well_formed()
        &&& forall|i: int|
            0 <= i < self.accounts().values().len() ==> (#[trigger] self.accounts().values()[i]).value().well_formed()
    }
}

/// The write for the entry at position `j` of an account.
pub open spec fn entry_update(
    key: crypto::PublicKey,
    topoheight: u64,
    entries: VecMap<crypto::Hash, Updatable<CachedVersionedBalance>>,
    j: int,
) -> BalanceUpdateView {
    BalanceUpdateView {
        key,
        asset: entries.keys()[j],
        topoheight,
        balance: entries.values()[j].value()@,
    }
}

/// Whether `update` is the write of a dirty entry of a dirty account of `state`.
pub open spec fn is_dirty_entry(
    state: CachedStateView,
    topoheight: u64,
    update: BalanceUpdateView,
) -> bool {
    &&& state.balances.contains_key(update.key)
    &&& state.balances[update.key].modified
    &&& state.balances[update.key].value.contains_key(update.asset)
    &&& state.balances[update.key].value[update.asset].modified
    &&& state.balances[update.key].value[update.asset].value == update.balance
    &&& update.topoheight == topoheight
}

/// The writes of an account are the writes of its dirty entries, each once.
pub proof fn lemma_account_updates(
    key: crypto::PublicKey,
    topoheight: u64,
    entries: VecMap<crypto::Hash, Updatable<CachedVersionedBalance>>,
    n: int,
)
    requires
        entries.well_formed(),
        0 <= n <= entries.keys().len(),
    ensures
        forall|u: BalanceUpdateView| #[trigger]
            account_updates(key, topoheight, entries, n).contains(u) <==> exists|j: int|
                0 <= j < n && entries.values()[j].is_modified() && u == #[trigger] entry_update(
                    key,
                    topoheight,
                    entries,
                    j,
                ),
        account_updates(key, topoheight, entries, n).no_duplicates(),
    decreases n,
{
    let now = account_updates(key, topoheight, entries, n);
    if n > 0 {
        lemma_account_updates(key, topoheight, entries, n - 1);
        let before = account_updates(key, topoheight, entries, n - 1);
        let last = entry_update(key, topoheight, entries, n - 1);
        if entries.values()[n - 1].is_modified() {
            assert(now == before.push(last));
            assert(!before.contains(last)) by {
                if before.contains(last) {
                    let j = choose|j: int|
                        0 <= j < n - 1 && entries.values()[j].is_modified() && last
                            == #[trigger] entry_update(key, topoheight, entries, j);
                    assert(entries.keys()[j] == entries.keys()[n - 1]);
                }
            }
            assert forall|u: BalanceUpdateView| #[trigger] now.contains(u) implies exists|j: int|
                0 <= j < n && entries.values()[j].is_modified() && u == #[trigger] entry_update(
                    key,
                    topoheight,
                    entries,
                    j,
                ) by {
                let i = choose|i: int| 0 <= i < now.len() && now[i] == u;
                if i < before.len() {
                    assert(before[i] == u);
                    assert(before.contains(u));
                } else {
                    assert(u == entry_update(key, topoheight, entries, n - 1));
                }
            }
            assert forall|u: BalanceUpdateView|
                (exists|j: int|
                    0 <= j < n && entries.values()[j].is_modified() && u == #[trigger] entry_update(
                        key,
                        topoheight,
                        entries,
                        j,
                    )) implies #[trigger] now.contains(u) by {
                let j = choose|j: int|
                    0 <= j < n && entries.values()[j].is_modified() && u == #[trigger] entry_update(
                        key,
                        topoheight,
                        entries,
                        j,
                    );
                if j < n - 1 {
                    assert(before.contains(u));
                    let i = choose|i: int| 0 <= i < before.len() && before[i] == u;
                    assert(now[i] == u);
                } else {
                    assert(now[before.len() as int] == u);
                }
            }
            assert(now.no_duplicates()) by {
                assert forall|a: int, b: int|
                    0 <= a < now.len() && 0 <= b < now.len() && a != b implies now[a] != now[b] by {
                    if a < before.len() && b < before.len() {
                    } else if a < before.len() {
                        assert(before.contains(now[a]));
                    } else if b < before.len() {
                        assert(before.contains(now[b]));
                    }
                }
            }
        } else {
            assert(now == before);
            assert forall|u: BalanceUpdateView|
                (exists|j: int|
                    0 <= j < n && entries.values()[j].is_modified() && u == #[trigger] entry_update(
                        key,
                        topoheight,
                        entries,
                        j,
                    )) implies #[trigger] now.contains(u) by {
                let j = choose|j: int|
                    0 <= j < n && entries.values()[j].is_modified() && u == #[trigger] entry_update(
                        key,
                        topoheight,
                        entries,
                        j,
                    );
                assert(j < n - 1);
            }
        }
    }
}

/// The writes of a state are the writes of the dirty entries of its dirty accounts, each once.
pub proof fn lemma_state_updates(
    topoheight: u64,
    accounts: VecMap<crypto::PublicKey, Updatable<CachedAccount>>,
    n: int,
)
    requires
        accounts.well_formed(),
        forall|i: int|
            0 <= i < accounts.values().len() ==> (#[trigger] accounts.values()[i]).value().well_formed(),
        0 <= n <= accounts.keys().len(),
    ensures
        forall|u: BalanceUpdateView| #[trigger]
            state_updates(topoheight, accounts, n).contains(u) <==> exists|i: int, j: int|
                0 <= i < n && accounts.values()[i].is_modified() && 0 <= j
                    < accounts.values()[i].value().entries().keys().len()
                    && accounts.values()[i].value().entries().values()[j].is_modified() && u
                    == #[trigger] entry_update(
                    accounts.keys()[i],
                    topoheight,
                    accounts.values()[i].value().entries(),
                    j,
                ),
        state_updates(topoheight, accounts, n).no_duplicates(),
    decreases n,
{
    let now = state_updates(topoheight, accounts, n);
    if n > 0 {
        lemma_state_updates(topoheight, accounts, n - 1);
        let before = state_updates(topoheight, accounts, n - 1);
        let account = accounts.values()[n - 1];
        let key = accounts.keys()[n - 1];
        let entries = account.value().entries();
        let len = entries.keys().len() as int;
        let added = account_updates(key, topoheight, entries, len);
        assert(account.value().well_formed());
        lemma_account_updates(key, topoheight, entries, len);
        if account.is_modified() {
            assert(now == before + added);
            assert forall|a: int, b: int| 0 <= a < before.len() && 0 <= b < added.len() implies before[a]
                != added[b] by {
                assert(before.contains(before[a]));
                assert(added.contains(added[b]));
                let (i, j) = choose|i: int, j: int|
                    0 <= i < n - 1 && accounts.values()[i].is_modified() && 0 <= j
                        < accounts.values()[i].value().entries().keys().len()
                        && accounts.values()[i].value().entries().values()[j].is_modified()
                        && before[a] == #[trigger] entry_update(
                        accounts.keys()[i],
                        topoheight,
                        accounts.values()[i].value().entries(),
                        j,
                    );
                assert(before[a].key == accounts.keys()[i]);
                let k = choose|k: int|
                    0 <= k < len && entries.values()[k].is_modified() && added[b]
                        == #[trigger] entry_update(key, topoheight, entries, k);
                assert(added[b].key == key);
            }
            vstd::seq_lib::lemma_no_dup_in_concat(before, added);
            assert forall|u: BalanceUpdateView| #[trigger] now.contains(u) implies exists|
                i: int,
                j: int,
            |
                0 <= i < n && accounts.values()[i].is_modified() && 0 <= j
                    < accounts.values()[i].value().entries().keys().len()
                    && accounts.values()[i].value().entries().values()[j].is_modified() && u
                    == #[trigger] entry_update(
                    accounts.keys()[i],
                    topoheight,
                    accounts.values()[i].value().entries(),
                    j,
                ) by {
                let a = choose|a: int| 0 <= a < now.len() && now[a] == u;
                if a < before.len() {
                    assert(before[a] == u);
                    assert(before.contains(u));
                } else {
                    assert(added[a - before.len()] == u);
                    assert(added.contains(u));
                    let k = choose|k: int|
                        0 <= k < len && entries.values()[k].is_modified() && u
                            == #[trigger] entry_update(key, topoheight, entries, k);
                    assert(u == entry_update(
                        accounts.keys()[n - 1],
                        topoheight,
                        accounts.values()[n - 1].value().entries(),
                        k,
                    ));
                }
            }
            assert forall|u: BalanceUpdateView|
                (exists|i: int, j: int|
                    0 <= i < n && accounts.values()[i].is_modified() && 0 <= j
                        < accounts.values()[i].value().entries().keys().len()
                        && accounts.values()[i].value().entries().values()[j].is_modified() && u
                        == #[trigger] entry_update(
                        accounts.keys()[i],
                        topoheight,
                        accounts.values()[i].value().entries(),
                        j,
                    )) implies #[trigger] now.contains(u) by {
                let (i, j) = choose|i: int, j: int|
                    0 <= i < n && accounts.values()[i].is_modified() && 0 <= j
                        < accounts.values()[i].value().entries().keys().len()
                        && accounts.values()[i].value().entries().values()[j].is_modified() && u
                        == #[trigger] entry_update(
                        accounts.keys()[i],
                        topoheight,
                        accounts.values()[i].value().entries(),
                        j,
                    );
                if i < n - 1 {
                    assert(before.contains(u));
                    let a = choose|a: int| 0 <= a < before.len() && before[a] == u;
                    assert(now[a] == u);
                } else {
                    assert(u == entry_update(key, topoheight, entries, j));
                    assert(added.contains(u));
                    let b = choose|b: int| 0 <= b < added.len() && added[b] == u;
                    assert(now[before.len() + b] == u);
                }
            }
        } else {
            assert(now == before);
            assert forall|u: BalanceUpdateView|
                (exists|i: int, j: int|
                    0 <= i < n && accounts.values()[i].is_modified() && 0 <= j
                        < accounts.values()[i].value().entries().keys().len()
                        && accounts.values()[i].value().entries().values()[j].is_modified() && u
                        == #[trigger] entry_update(
                        accounts.keys()[i],
                        topoheight,
                        accounts.values()[i].value().entries(),
                        j,
                    )) implies #[trigger] now.contains(u) by {
                let (i, j) = choose|i: int, j: int|
                    0 <= i < n && accounts.values()[i].is_modified() && 0 <= j
                        < accounts.values()[i].value().entries().keys().len()
                        && accounts.values()[i].value().entries().values()[j].is_modified() && u
                        == #[trigger] entry_update(
                        accounts.keys()[i],
                        topoheight,
                        accounts.values()[i].value().entries(),
                        j,
                    );
                assert(i < n - 1);
            }
        }
    }
}

/// A commit writes exactly the dirty entries of the dirty accounts, each once,
/// with the balance that the cache holds: nothing is written for a clean
/// account or a clean entry.
pub proof fn lemma_commit_writes_dirty_entries(state: CachedState, topoheight: u64)
    requires
        state.well_formed(),
    ensures
        forall|u: BalanceUpdateView| #[trigger]
            state.pending_balances(topoheight).contains(u) <==> is_dirty_entry(
                state@,
                topoheight,
                u,
            ),
        state.pending_balances(topoheight).no_duplicates(),
{
    let accounts = state.accounts();
    let n = accounts.keys().len() as int;
    let pending = state.pending_balances(topoheight);
    lemma_state_updates(topoheight, accounts, n);
    assert forall|u: BalanceUpdateView| #[trigger] pending.contains(u) implies is_dirty_entry(
        state@,
        topoheight,
        u,
    ) by {
        let (i, j) = choose|i: int, j: int|
            0 <= i < n && accounts.values()[i].is_modified() && 0 <= j
                < accounts.values()[i].value().entries().keys().len()
                && accounts.values()[i].value().entries().values()[j].is_modified() && u
                == #[trigger] entry_update(
                accounts.keys()[i],
                topoheight,
                accounts.values()[i].value().entries(),
                j,
            );
        let entries = accounts.values()[i].value().entries();
        assert(accounts.values()[i].value().well_formed());
        accounts.lemma_position(i);
        entries.lemma_position(j);
    }
    assert forall|u: BalanceUpdateView| is_dirty_entry(state@, topoheight, u) implies #[trigger] pending.contains(
        u,
    ) by {
        accounts.lemma_contained(u.key);
        let i = accounts.position(u.key);
        let entries = accounts.values()[i].value().entries();
        entries.lemma_contained(u.asset);
        let j = entries.position(u.asset);
        assert(u == entry_update(accounts.keys()[i], topoheight, entries, j));
    }
}

/// Whether no account and no entry of `state` is dirty.
pub open spec fn is_clean(state: CachedStateView) -> bool {
    forall|key: crypto::PublicKey| #[trigger]
        state.balances.contains_key(key) ==> !state.balances[key].modified && forall|
            asset: crypto::Hash,
        | #[trigger]
            state.balances[key].value.contains_key(asset)
                ==> !state.balances[key].value[asset].modified
}

/// After one balance was set in a clean state, a commit writes that entry and
/// nothing else.
pub proof fn lemma_single_update_single_write(
    state: CachedStateView,
    account: crypto::PublicKey,
    asset: crypto::Hash,
    ct: crypto::Ciphertext,
    topoheight: u64,
    update: BalanceUpdateView,
)
    requires
        is_clean(state),
    ensures
        is_dirty_entry(state_with_balance(state, account, asset, ct), topoheight, update) <==> (
        update.key == account && update.asset == asset && update.topoheight == topoheight
            && update.balance == with_balance(balances_of(state, account), asset, ct)[asset].value),
{
    let after = state_with_balance(state, account, asset, ct);
    if is_dirty_entry(after, topoheight, update) {
        if update.key != account {
            assert(state.balances.contains_key(update.key));
        } else if update.asset != asset {
            assert(state.balances.contains_key(account));
            assert(state.balances[account].value.contains_key(update.asset));
        }
    }
}

} // verus!
