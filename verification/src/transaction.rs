use crate::crypto;
use vstd::prelude::*;

verus! {

/// One payment inside a transaction.
#[derive(Clone, Debug, PartialEq, Eq)]
pub struct Transfer {
    pub to: crypto::PublicKey,
    pub asset: crypto::Hash,
    pub amount: u64,
    pub extra_data: Option<Vec<u8>>,
}

/// What a transaction does.
#[derive(Clone, Debug, PartialEq, Eq)]
pub enum TransactionType {
    Transfer(Vec<Transfer>),
}

/// A transaction: its owner, the owner's nonce, the fee and the payload.
#[derive(Clone, Debug, PartialEq, Eq)]
pub struct Transaction {
    owner: crypto::PublicKey,
    data: TransactionType,
    fee: u64,
    nonce: u64,
}

/// The accounts that `transfers[..n]` touch: for each transfer the owner, then the recipient.
pub open spec fn touched_by(
    owner: crypto::PublicKey,
    transfers: Seq<Transfer>,
    n: int,
) -> Seq<crypto::PublicKey>
    decreases n,
{
    if n <= 0 {
        Seq::empty()
    } else {
        touched_by(owner, transfers, n - 1).push(owner).push(transfers[n - 1].to)
    }
}

impl Transaction {
    /// The account that signs and pays.
    pub closed spec fn spec_owner(&self) -> crypto::PublicKey {
        self.owner
    }

    /// The transfers, in order.
    pub closed spec fn spec_transfers(&self) -> Seq<Transfer> {
        match self.data {
            TransactionType::Transfer(transfers) => transfers@,
        }
    }

    /// The fee.
    pub closed spec fn spec_fee(&self) -> u64 {
        self.fee
    }

    /// The nonce of the owner.
    pub closed spec fn spec_nonce(&self) -> u64 {
        self.nonce
    }

    /// The accounts whose balance the transaction touches: the owner, who pays
    /// the fee, then for each transfer the owner and the recipient.
    pub open spec fn modified_accounts(&self) -> Seq<crypto::PublicKey> {
        seq![self.spec_owner()] + touched_by(
            self.spec_owner(),
            self.spec_transfers(),
            self.spec_transfers().len() as int,
        )
    }

    /// A transaction of `owner`.
    pub fn new(owner: crypto::PublicKey, data: TransactionType, fee: u64, nonce: u64) -> (tx: Self)
        ensures
            tx.spec_owner() == owner,
            tx.spec_transfers() == (match data {
                TransactionType::Transfer(transfers) => transfers@,
            }),
            tx.spec_fee() == fee,
            tx.spec_nonce() == nonce,
    {
        Transaction { owner, data, fee, nonce }
    }

    /// The account that signs and pays.
    pub fn get_owner(&self) -> (k: &crypto::PublicKey)
        ensures
            *k == self.spec_owner(),
    {
        &self.owner
    }

    /// The fee.
    pub fn get_fee(&self) -> (f: u64)
        ensures
            f == self.spec_fee(),
    {
        self.fee
    }

    /// The nonce of the owner.
    pub fn get_nonce(&self) -> (n: u64)
        ensures
            n == self.spec_nonce(),
    {
        self.nonce
    }

    /// What the transaction does.
    pub fn get_data(&self) -> (d: &TransactionType)
        ensures
            (match *d {
                TransactionType::Transfer(transfers) => transfers@,
            }) == self.spec_transfers(),
    {
        &self.data
    }

    /// Every account whose balance the transaction touches, in order, repeats included.
    pub fn get_modified_accounts(&self) -> (accounts: Vec<crypto::PublicKey>)
        ensures
            accounts@ == self.modified_accounts(),
    {
        let mut accounts: Vec<crypto::PublicKey> = Vec::new();
        accounts.push(self.owner);
        match &self.data {
            TransactionType::Transfer(transfers) => {
                let mut i: usize = 0;
                while i < transfers.len()
                    invariant
                        0 <= i <= transfers.len(),
                        transfers@ == self.spec_transfers(),
                        accounts@ == seq![self.spec_owner()] + touched_by(
                            self.spec_owner(),
                            transfers@,
                            i as int,
                        ),
                    decreases transfers.len() - i,
                {
                    accounts.push(self.owner);
                    accounts.push(transfers[i].to);
                    i += 1;
                    assert(accounts@ =~= seq![self.spec_owner()] + touched_by(
                        self.spec_owner(),
                        transfers@,
                        i as int,
                    ));
                }
            },
        }
        accounts
    }
}

} // verus!
