use crate::config::{BLOCK_TIME_MILLIS, TIPS_LIMIT};
use crate::crypto;
use crate::text::same_text;
use crate::vec_map::VecMap;
use rand::rngs::OsRng;
use rand::Rng;
use vstd::prelude::*;

verus! {

/// How the simulator mines.
#[derive(Clone, Copy, Debug, PartialEq, Eq, Structural)]
pub enum Simulator {
    /// One block every block time.
    Blockchain,
    /// Up to as many blocks as a block may have tips, every block time.
    BlockDag,
    /// Many more blocks and transactions, for stress tests.
    Stress,
}

impl Simulator {
    /// The name of the mode, in lower case.
    pub open spec fn name(self) -> Seq<char> {
        match self {
            Simulator::Blockchain => "blockchain"@,
            Simulator::BlockDag => "blockdag"@,
            Simulator::Stress => "stress"@,
        }
    }

    /// The mode with the given name or number.
    pub open spec fn parse(s: Seq<char>) -> Option<Simulator> {
        if s == "blockchain"@ || s == "0"@ {
            Some(Simulator::Blockchain)
        } else if s == "blockdag"@ || s == "1"@ {
            Some(Simulator::BlockDag)
        } else if s == "stress"@ || s == "2"@ {
            Some(Simulator::Stress)
        } else {
            None
        }
    }

    /// The mode with the given name or number, or the message "Invalid simulator type".
    pub fn from_str(s: &str) -> (r: Result<Simulator, String>)
        ensures
            match Simulator::parse(s@) {
                Some(mode) => r == Ok::<Simulator, String>(mode),
                None => r is Err && r->Err_0@ == "Invalid simulator type"@,
            },
    {
        if same_text(s, "blockchain") || same_text(s, "0") {
            Ok(Simulator::Blockchain)
        } else if same_text(s, "blockdag") || same_text(s, "1") {
            Ok(Simulator::BlockDag)
        } else if same_text(s, "stress") || same_text(s, "2") {
            Ok(Simulator::Stress)
        } else {
            Err("Invalid simulator type".to_owned())
        }
    }

    /// The name of the mode, in lower case.
    pub fn as_str(&self) -> (s: &'static str)
        ensures
            s@ == self.name(),
    {
        match self {
            Simulator::Blockchain => "blockchain",
            Simulator::BlockDag => "blockdag",
            Simulator::Stress => "stress",
        }
    }

    /// The name of the mode as an owned string.
    pub fn to_string(&self) -> (s: String)
        ensures
            s@ == self.name(),
    {
        self.as_str().to_owned()
    }

    /// The time between two rounds of mining, in milliseconds.
    pub fn interval_millis(&self) -> (millis: u64)
        ensures
            millis == match *self {
                Simulator::Stress => 300,
                _ => BLOCK_TIME_MILLIS,
            },
    {
        match self {
            Simulator::Stress => 300,
            _ => BLOCK_TIME_MILLIS,
        }
    }

    /// The most blocks to mine in one round.
    pub open spec fn most_blocks(&self) -> usize {
        match *self {
            Simulator::Blockchain => 1usize,
            Simulator::BlockDag => TIPS_LIMIT,
            Simulator::Stress => 10usize,
        }
    }

    /// The most blocks to mine in one round.
    #[verifier::when_used_as_spec(most_blocks)]
    pub fn max_blocks(&self) -> (count: usize)
        ensures
            count == self.most_blocks(),
    {
        match self {
            Simulator::Blockchain => 1,
            Simulator::BlockDag => TIPS_LIMIT,
            Simulator::Stress => 10,
        }
    }

    /// The bound, not included, on the transactions to add in one round.
    pub fn max_txs(&self) -> (count: usize)
        ensures
            count == match *self {
                Simulator::Stress => 200usize,
                _ => 15usize,
            },
    {
        match self {
            Simulator::Stress => 200,
            _ => 15,
        }
    }
}

impl core::str::FromStr for Simulator {
    type Err = String;

    /// The mode with the given name or number, or the message "Invalid simulator type".
    fn from_str(s: &str) -> (r: Result<Simulator, String>)
        ensures
            match Simulator::parse(s@) {
                Some(mode) => r == Ok::<Simulator, String>(mode),
                None => r is Err && r->Err_0@ == "Invalid simulator type"@,
            },
    {
        Simulator::from_str(s)
    }
}

/// `Rng::gen_range` on the generator of the operating system: some number
/// from `low` to `high`, both included.
#[verifier::external_body]
fn random_between(low: u64, high: u64) -> (r: u64)
    requires
        low <= high,
    ensures
        low <= r <= high,
{
    OsRng.gen_range(low..=high)
}

/// Some number from `low` to `high`, both included.
fn random_index(low: usize, high: usize) -> (r: usize)
    requires
        low <= high,
    ensures
        low <= r <= high,
{
    random_between(low as u64, high as u64) as usize
}

impl Simulator {
    /// The number of blocks to aim at in one round: one, or at random from one
    /// to the most that the mode allows.
    pub fn blocks_count(&self) -> (count: usize)
        ensures
            1 <= count <= self.max_blocks(),
            *self == Simulator::Blockchain ==> count == 1,
    {
        match self {
            Simulator::Blockchain => 1,
            Simulator::BlockDag => random_index(1, TIPS_LIMIT),
            Simulator::Stress => random_index(1, 10),
        }
    }
}

/// The number of blocks to mine in one round: at random from one to `max_blocks`.
pub fn blocks_to_mine(max_blocks: usize) -> (count: usize)
    ensures
        max_blocks == 0 ==> count == 0,
        max_blocks > 0 ==> 1 <= count <= max_blocks,
{
    if max_blocks == 0 {
        0
    } else {
        random_index(1, max_blocks)
    }
}

/// The number of transactions to add in one round: at random, below `max_txs`.
pub fn txs_to_add(max_txs: usize) -> (count: usize)
    ensures
        max_txs == 0 ==> count == 0,
        max_txs > 0 ==> count < max_txs,
{
    if max_txs == 0 {
        0
    } else {
        random_index(0, max_txs - 1)
    }
}

/// The number of transfers of one transaction: at random from one to `max_transfers`.
pub fn transfers_to_make(max_transfers: usize) -> (count: usize)
    ensures
        max_transfers == 0 ==> count == 0,
        max_transfers > 0 ==> 1 <= count <= max_transfers,
{
    blocks_to_mine(max_transfers)
}

/// The amount of one transfer: at random from one to `max_amount`.
pub fn amount_to_send(max_amount: u64) -> (amount: u64)
    ensures
        max_amount == 0 ==> amount == 0,
        max_amount > 0 ==> 1 <= amount <= max_amount,
{
    if max_amount == 0 {
        0
    } else {
        random_between(1, max_amount)
    }
}

/// The place of one of `count` keys, at random, if there is any.
pub fn pick_key(count: usize) -> (index: Option<usize>)
    ensures
        count == 0 ==> index is None,
        count > 0 ==> index is Some && index->Some_0 < count,
{
    if count == 0 {
        None
    } else {
        Some(random_index(0, count - 1))
    }
}

/// The place of one of `count` keys other than the one at `sender`, at
/// random, if there is any other.
pub fn pick_recipient(count: usize, sender: usize) -> (index: Option<usize>)
    ensures
        (count < 2 || sender >= count) ==> index is None,
        (count >= 2 && sender < count) ==> index is Some && index->Some_0 < count
            && index->Some_0 != sender,
{
    if count < 2 || sender >= count {
        None
    } else {
        let other = random_index(0, count - 2);
        if other >= sender {
            Some(other + 1)
        } else {
            Some(other)
        }
    }
}

/// The nonce of the next simulated transaction of `key`, where one was used
/// before: one more than that, or zero after the greatest, which is recorded.
pub fn next_local_nonce(local: &mut VecMap<crypto::PublicKey, u64>, key: &crypto::PublicKey) -> (r:
    Option<u64>)
    ensures
        !old(local)@.contains_key(*key) ==> r is None && final(local)@ == old(local)@,
        old(local)@.contains_key(*key) ==> r == Some(
            (if old(local)@[*key] == u64::MAX {
                0
            } else {
                old(local)@[*key] + 1
            }) as u64,
        ) && final(local)@ == old(local)@.insert(*key, r->Some_0),
{
    match local.index_of(key) {
        Some(i) => {
            let nonce = local.value_at_mut(i);
            *nonce = if *nonce == u64::MAX {
                0
            } else {
                *nonce + 1
            };
            Some(*nonce)
        },
        None => None,
    }
}

/// Records `nonce` as the nonce that the last simulated transaction of `key` used.
pub fn record_local_nonce(
    local: &mut VecMap<crypto::PublicKey, u64>,
    key: crypto::PublicKey,
    nonce: u64,
)
    ensures
        final(local)@ == old(local)@.insert(key, nonce),
{
    local.insert(key, nonce);
}

} // verus!
