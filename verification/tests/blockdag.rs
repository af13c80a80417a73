use xelis_core::account::{VersionedBalance, VersionedNonce};
use xelis_core::blockdag::{
    best_score, calculate_height_at_tips, find_best_tip_by_cumulative_difficulty, height_at,
    score_before, sort_descending_by_cumulative_difficulty, sort_tips, sorted_hashes,
};
use xelis_core::crypto;
use xelis_core::error::BlockchainError;
use xelis_core::storage::{DifficultyProvider, Storage, StoredBalance};

fn hash(byte: u8) -> crypto::Hash {
    crypto::Hash::new([byte; 32])
}

fn hash_ending(last: u8) -> crypto::Hash {
    let mut bytes = [0u8; 32];
    bytes[31] = last;
    crypto::Hash::new(bytes)
}

/// Block metadata held in memory.
struct Table {
    blocks: Vec<(crypto::Hash, u64, u64)>,
}

impl DifficultyProvider for Table {
    fn get_height_for_block_hash(&self, hash: &crypto::Hash) -> Result<u64, BlockchainError> {
        for (known, height, _) in &self.blocks {
            if known == hash {
                return Ok(*height);
            }
        }
        Err(BlockchainError::BlockNotFound(*hash))
    }

    fn get_cumulative_difficulty_for_block_hash(
        &self,
        hash: &crypto::Hash,
    ) -> Result<u64, BlockchainError> {
        for (known, _, difficulty) in &self.blocks {
            if known == hash {
                return Ok(*difficulty);
            }
        }
        Err(BlockchainError::BlockNotFound(*hash))
    }
}

impl Storage for Table {
    fn has_nonce(&self, _key: &crypto::PublicKey) -> Result<bool, BlockchainError> {
        Ok(false)
    }

    fn get_last_nonce(
        &self,
        key: &crypto::PublicKey,
    ) -> Result<(u64, VersionedNonce), BlockchainError> {
        Err(BlockchainError::AccountNotFound(*key))
    }

    fn get_balances_at_maximum_topoheight(
        &self,
        _key: &crypto::PublicKey,
        _topoheight: u64,
    ) -> Result<Vec<StoredBalance>, BlockchainError> {
        Ok(Vec::new())
    }

    fn set_last_balance_to(
        &mut self,
        _key: &crypto::PublicKey,
        _asset: &crypto::Hash,
        _topoheight: u64,
        _balance: &VersionedBalance,
    ) -> Result<(), BlockchainError> {
        Ok(())
    }

    fn set_nonce_at_topoheight(
        &mut self,
        _key: &crypto::PublicKey,
        _topoheight: u64,
        _nonce: u64,
    ) -> Result<(), BlockchainError> {
        Ok(())
    }
}

/// A storage that fails on every call.
struct Failing;

impl DifficultyProvider for Failing {
    fn get_height_for_block_hash(&self, _hash: &crypto::Hash) -> Result<u64, BlockchainError> {
        Err(BlockchainError::Storage(String::from("height")))
    }

    fn get_cumulative_difficulty_for_block_hash(
        &self,
        _hash: &crypto::Hash,
    ) -> Result<u64, BlockchainError> {
        Err(BlockchainError::Storage(String::from("difficulty")))
    }
}

impl Storage for Failing {
    fn has_nonce(&self, _key: &crypto::PublicKey) -> Result<bool, BlockchainError> {
        Err(BlockchainError::Storage(String::from("has_nonce")))
    }

    fn get_last_nonce(
        &self,
        _key: &crypto::PublicKey,
    ) -> Result<(u64, VersionedNonce), BlockchainError> {
        Err(BlockchainError::Storage(String::from("last_nonce")))
    }

    fn get_balances_at_maximum_topoheight(
        &self,
        _key: &crypto::PublicKey,
        _topoheight: u64,
    ) -> Result<Vec<StoredBalance>, BlockchainError> {
        Err(BlockchainError::Storage(String::from("balances")))
    }

    fn set_last_balance_to(
        &mut self,
        _key: &crypto::PublicKey,
        _asset: &crypto::Hash,
        _topoheight: u64,
        _balance: &VersionedBalance,
    ) -> Result<(), BlockchainError> {
        Err(BlockchainError::Storage(String::from("set_balance")))
    }

    fn set_nonce_at_topoheight(
        &mut self,
        _key: &crypto::PublicKey,
        _topoheight: u64,
        _nonce: u64,
    ) -> Result<(), BlockchainError> {
        Err(BlockchainError::Storage(String::from("set_nonce")))
    }
}

#[test]
fn sort_puts_higher_difficulty_first() {
    let mut scores = vec![(hash(1), 10u64), (hash(2), 30u64), (hash(3), 20u64)];
    sort_descending_by_cumulative_difficulty(&mut scores);
    assert_eq!(scores, vec![(hash(2), 30u64), (hash(3), 20u64), (hash(1), 10u64)]);
}

#[test]
fn sort_breaks_ties_by_higher_hash() {
    let mut scores = vec![(hash(1), 100u64), (hash(3), 100u64), (hash(2), 100u64)];
    sort_descending_by_cumulative_difficulty(&mut scores);
    assert_eq!(scores, vec![(hash(3), 100u64), (hash(2), 100u64), (hash(1), 100u64)]);
}

#[test]
fn sort_compares_hashes_from_the_first_byte() {
    // 0x01 00 .. 00 is above 0x00 .. 00 ff: the first byte decides.
    let mut high = [0u8; 32];
    high[0] = 1;
    let high = crypto::Hash::new(high);
    let low = hash_ending(0xff);
    let mut scores = vec![(low, 5u64), (high, 5u64)];
    sort_descending_by_cumulative_difficulty(&mut scores);
    assert_eq!(scores, vec![(high, 5u64), (low, 5u64)]);
}

#[test]
fn sort_twice_gives_the_same_sequence() {
    let mut scores = vec![
        (hash(9), 7u64),
        (hash(4), 7u64),
        (hash(1), 900u64),
        (hash(7), 0u64),
        (hash(4), 8u64),
    ];
    sort_descending_by_cumulative_difficulty(&mut scores);
    let once = scores.clone();
    sort_descending_by_cumulative_difficulty(&mut scores);
    assert_eq!(scores, once);
    assert_eq!(
        once,
        vec![(hash(1), 900u64), (hash(4), 8u64), (hash(9), 7u64), (hash(4), 7u64), (hash(7), 0u64)]
    );
}

#[test]
fn sort_agrees_with_the_comparator() {
    let mut scores = vec![
        (hash(2), 3u64),
        (hash(8), 3u64),
        (hash(5), 1u64),
        (hash(1), 9u64),
        (hash(8), 3u64),
    ];
    sort_descending_by_cumulative_difficulty(&mut scores);
    for i in 0..scores.len() {
        for j in (i + 1)..scores.len() {
            assert!(!score_before(&scores[j], &scores[i]));
        }
    }
    assert!(scores[0].1 >= scores[1].1);
}

#[test]
fn sort_leaves_empty_and_single_alone() {
    let mut none: Vec<(crypto::Hash, u64)> = Vec::new();
    sort_descending_by_cumulative_difficulty(&mut none);
    assert!(none.is_empty());
    let mut one = vec![(hash(1), 1u64)];
    sort_descending_by_cumulative_difficulty(&mut one);
    assert_eq!(one, vec![(hash(1), 1u64)]);
}

#[test]
fn score_before_is_strict() {
    assert!(score_before(&(hash(1), 2), &(hash(9), 1)));
    assert!(!score_before(&(hash(9), 1), &(hash(1), 2)));
    assert!(score_before(&(hash(2), 1), &(hash(1), 1)));
    assert!(!score_before(&(hash(1), 1), &(hash(1), 1)));
}

#[test]
fn dag_tie_break_prefers_higher_hash() {
    let h1 = hash(0x01);
    let h2 = hash(0x02);
    let table = Table { blocks: vec![(h1, 1, 100), (h2, 1, 100)] };
    let sorted = sort_tips(&table, &vec![h1, h2]).unwrap();
    assert_eq!(sorted, vec![h2, h1]);
}

#[test]
fn sort_tips_orders_by_cumulative_difficulty() {
    let a = hash(0xaa);
    let b = hash(0xbb);
    let c = hash(0xcc);
    let table = Table { blocks: vec![(a, 1, 50), (b, 1, 70), (c, 1, 60)] };
    assert_eq!(sort_tips(&table, &vec![a, b, c]), Ok(vec![b, c, a]));
}

#[test]
fn sort_tips_without_tips_is_an_error() {
    let table = Table { blocks: Vec::new() };
    assert_eq!(sort_tips(&table, &Vec::new()), Err(BlockchainError::ExpectedTips));
}

#[test]
fn sort_tips_single_tip_asks_nothing() {
    let only = hash(0x42);
    assert_eq!(sort_tips(&Failing, &vec![only]), Ok(vec![only]));
}

#[test]
fn sort_tips_hands_on_the_storage_error() {
    let result = sort_tips(&Failing, &vec![hash(1), hash(2)]);
    assert_eq!(result, Err(BlockchainError::Storage(String::from("difficulty"))));
}

#[test]
fn height_at_tips_is_max_plus_one() {
    let a = hash(0x0a);
    let b = hash(0x0b);
    let table = Table { blocks: vec![(a, 5, 1), (b, 7, 1)] };
    assert_eq!(calculate_height_at_tips(&table, &vec![a, b]), Ok(8));
    assert_eq!(calculate_height_at_tips(&table, &vec![b, a]), Ok(8));
    assert_eq!(calculate_height_at_tips(&table, &vec![a]), Ok(6));
}

#[test]
fn height_at_no_tips_is_zero() {
    let table = Table { blocks: Vec::new() };
    assert_eq!(calculate_height_at_tips(&table, &Vec::new()), Ok(0));
    assert_eq!(calculate_height_at_tips(&Failing, &Vec::new()), Ok(0));
}

#[test]
fn height_above_genesis_is_one() {
    let genesis = hash(0);
    let table = Table { blocks: vec![(genesis, 0, 1)] };
    assert_eq!(calculate_height_at_tips(&table, &vec![genesis]), Ok(1));
}

#[test]
fn height_at_tips_hands_on_the_provider_error() {
    let table = Table { blocks: Vec::new() };
    assert_eq!(
        calculate_height_at_tips(&table, &vec![hash(3)]),
        Err(BlockchainError::BlockNotFound(hash(3)))
    );
}

#[test]
fn height_at_values() {
    assert_eq!(height_at(&Vec::new()), Ok(0));
    assert_eq!(height_at(&vec![0]), Ok(1));
    assert_eq!(height_at(&vec![5, 7, 6]), Ok(8));
    assert_eq!(height_at(&vec![u64::MAX - 1]), Ok(u64::MAX));
    assert_eq!(height_at(&vec![1, u64::MAX]), Err(BlockchainError::HeightOverflow));
}

#[test]
fn best_tip_is_first_of_sorted_order() {
    let a = hash(0xaa);
    let b = hash(0xbb);
    let c = hash(0xcc);
    let table = Table { blocks: vec![(a, 1, 50), (b, 1, 70), (c, 1, 70)] };
    let tips = vec![a, b, c];
    assert_eq!(find_best_tip_by_cumulative_difficulty(&table, &tips), Ok(&c));
    let sorted = sort_tips(&table, &tips).unwrap();
    assert_eq!(sorted[0], c);
}

#[test]
fn best_tip_edge_cases() {
    let only = hash(7);
    let tips = vec![only];
    assert_eq!(find_best_tip_by_cumulative_difficulty(&Failing, &tips), Ok(&only));
    let none: Vec<crypto::Hash> = Vec::new();
    assert_eq!(
        find_best_tip_by_cumulative_difficulty(&Failing, &none),
        Err(BlockchainError::ExpectedTips)
    );
    let two = vec![hash(1), hash(2)];
    assert_eq!(
        find_best_tip_by_cumulative_difficulty(&Failing, &two),
        Err(BlockchainError::Storage(String::from("difficulty")))
    );
}

#[test]
fn sorted_hashes_and_best_score() {
    let scores = vec![(hash(1), 1u64), (hash(2), 3u64), (hash(3), 2u64)];
    assert_eq!(sorted_hashes(scores.clone()), vec![hash(2), hash(3), hash(1)]);
    assert_eq!(best_score(scores), Some(hash(2)));
    assert_eq!(best_score(Vec::new()), None);
}
