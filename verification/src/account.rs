use crate::crypto;
use vstd::prelude::*;

verus! {

/// The fields of one version of an account's balance for one asset.
pub struct BalanceView {
    pub output_balance: Option<crypto::Ciphertext>,
    pub final_balance: crypto::Ciphertext,
    pub previous_topoheight: Option<u64>,
}

/// One version of an account's balance for one asset, as it is stored.
///
/// `previous_topoheight` is the topoheight of the version that precedes this one.
#[derive(Clone, Copy, Debug, PartialEq, Eq)]
pub struct VersionedBalance {
    final_balance: crypto::Ciphertext,
    output_balance: Option<crypto::Ciphertext>,
    previous_topoheight: Option<u64>,
}

impl View for VersionedBalance {
    type V = BalanceView;

    closed spec fn view(&self) -> BalanceView {
        BalanceView {
            output_balance: self.output_balance,
            final_balance: self.final_balance,
            previous_topoheight: self.previous_topoheight,
        }
    }
}

impl VersionedBalance {
    /// A version with the given final balance and no output balance.
    pub fn new(final_balance: crypto::Ciphertext, previous_topoheight: Option<u64>) -> (v: Self)
        ensures
            v@ == (BalanceView { output_balance: None, final_balance, previous_topoheight }),
    {
        VersionedBalance { final_balance, output_balance: None, previous_topoheight }
    }

    /// Sets the output balance.
    pub fn set_output_balance(&mut self, value: crypto::Ciphertext)
        ensures
            final(self)@ == (BalanceView { output_balance: Some(value), ..old(self)@ }),
    {
        self.output_balance = Some(value);
    }

    /// The final balance.
    pub fn get_final_balance(&self) -> (c: &crypto::Ciphertext)
        ensures
            *c == self@.final_balance,
    {
        &self.final_balance
    }

    /// The output balance, if there is one.
    pub fn get_output_balance(&self) -> (c: &Option<crypto::Ciphertext>)
        ensures
            *c == self@.output_balance,
    {
        &self.output_balance
    }

    /// The topoheight of the version before this one, if there is one.
    pub fn get_previous_topoheight(&self) -> (t: Option<u64>)
        ensures
            t == self@.previous_topoheight,
    {
        self.previous_topoheight
    }

    /// Two versions with the same fields are the same version.
    pub proof fn lemma_view_injective(self, other: Self)
        ensures
            self@ == other@ <==> self == other,
    {
    }
}

/// One version of an account's nonce, as it is stored.
#[derive(Clone, Copy, Debug, PartialEq, Eq)]
pub struct VersionedNonce {
    nonce: u64,
    previous_topoheight: Option<u64>,
}

impl VersionedNonce {
    /// The nonce.
    pub closed spec fn spec_nonce(&self) -> u64 {
        self.nonce
    }

    /// The topoheight of the version before this one, if there is one.
    pub closed spec fn spec_previous_topoheight(&self) -> Option<u64> {
        self.previous_topoheight
    }

    /// A version with the given nonce.
    pub fn new(nonce: u64, previous_topoheight: Option<u64>) -> (v: Self)
        ensures
            v.spec_nonce() == nonce,
            v.spec_previous_topoheight() == previous_topoheight,
    {
        VersionedNonce { nonce, previous_topoheight }
    }

    /// The nonce.
    pub fn get_nonce(&self) -> (n: u64)
        ensures
            n == self.spec_nonce(),
    {
        self.nonce
    }

    /// The topoheight of the version before this one, if there is one.
    pub fn get_previous_topoheight(&self) -> (t: Option<u64>)
        ensures
            t == self.spec_previous_topoheight(),
    {
        self.previous_topoheight
    }
}

} // verus!
