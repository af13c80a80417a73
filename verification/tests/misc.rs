use std::str::FromStr;
use std::sync::Arc;
use xelis_core::config::{BLOCK_TIME_MILLIS, TIPS_LIMIT};
use xelis_core::crypto;
use xelis_core::error::BlockchainError;
use xelis_core::immutable::Immutable;
use xelis_core::p2p::error::{ObjectRequest, P2pError};
use xelis_core::prompt::LogLevel;
use xelis_core::serializer::ReaderError;
use xelis_core::simulator::Simulator;
use xelis_core::text::same_text;
use xelis_core::vec_map::VecMap;

fn hash(byte: u8) -> crypto::Hash {
    crypto::Hash::new([byte; 32])
}

#[test]
fn immutable_owned() {
    let value = Immutable::Owned(String::from("a"));
    assert_eq!(value.get_inner(), "a");
    assert_eq!(&*value, "a");
    assert_eq!(value.clone().into_owned(), String::from("a"));
    assert_eq!(*value.to_arc(), String::from("a"));
}

#[test]
fn immutable_shared() {
    let shared = Arc::new(41u64);
    let value = Immutable::Arc(Arc::clone(&shared));
    assert_eq!(*value.get_inner(), 41);
    assert_eq!(*value, 41);
    assert_eq!(value.clone().into_owned(), 41);
    let arc = value.to_arc();
    assert!(Arc::ptr_eq(&arc, &shared));
}

#[test]
fn immutable_equality_looks_at_the_value_and_the_form() {
    assert_eq!(Immutable::Owned(1u8), Immutable::Owned(1u8));
    assert_ne!(Immutable::Owned(1u8), Immutable::Owned(2u8));
    assert_eq!(Immutable::Arc(Arc::new(1u8)), Immutable::Arc(Arc::new(1u8)));
}

#[test]
fn log_level_names() {
    assert_eq!(LogLevel::Off.to_string(), "off");
    assert_eq!(LogLevel::Error.to_string(), "error");
    assert_eq!(LogLevel::Warn.to_string(), "warn");
    assert_eq!(LogLevel::Info.as_str(), "info");
    assert_eq!(LogLevel::Debug.as_str(), "debug");
    assert_eq!(LogLevel::Trace.as_str(), "trace");
}

#[test]
fn log_level_from_str() {
    assert_eq!(LogLevel::from_str("error"), Ok(LogLevel::Error));
    assert_eq!(LogLevel::from_str("warn"), Ok(LogLevel::Warn));
    assert_eq!(LogLevel::from_str("info"), Ok(LogLevel::Info));
    assert_eq!(LogLevel::from_str("debug"), Ok(LogLevel::Debug));
    assert_eq!(LogLevel::from_str("trace"), Ok(LogLevel::Trace));
    assert_eq!(LogLevel::from_str("off"), Err(String::from("Invalid log level")));
    assert_eq!(LogLevel::from_str("Info"), Err(String::from("Invalid log level")));
    assert_eq!(LogLevel::from_str(""), Err(String::from("Invalid log level")));
    assert_eq!("debug".parse::<LogLevel>(), Ok(LogLevel::Debug));
    assert_eq!(<LogLevel as FromStr>::from_str("nothing"), Err(String::from("Invalid log level")));
}

#[test]
fn simulator_from_str() {
    assert_eq!(Simulator::from_str("blockchain"), Ok(Simulator::Blockchain));
    assert_eq!(Simulator::from_str("0"), Ok(Simulator::Blockchain));
    assert_eq!(Simulator::from_str("blockdag"), Ok(Simulator::BlockDag));
    assert_eq!(Simulator::from_str("1"), Ok(Simulator::BlockDag));
    assert_eq!(Simulator::from_str("stress"), Ok(Simulator::Stress));
    assert_eq!(Simulator::from_str("2"), Ok(Simulator::Stress));
    assert_eq!(Simulator::from_str("3"), Err(String::from("Invalid simulator type")));
    assert_eq!(Simulator::from_str("BlockDag"), Err(String::from("Invalid simulator type")));
    assert_eq!("stress".parse::<Simulator>(), Ok(Simulator::Stress));
}

#[test]
fn simulator_names_and_paces() {
    assert_eq!(Simulator::Blockchain.to_string(), "blockchain");
    assert_eq!(Simulator::BlockDag.to_string(), "blockdag");
    assert_eq!(Simulator::Stress.as_str(), "stress");
    assert_eq!(Simulator::Blockchain.interval_millis(), BLOCK_TIME_MILLIS);
    assert_eq!(Simulator::BlockDag.interval_millis(), 15000);
    assert_eq!(Simulator::Stress.interval_millis(), 300);
    assert_eq!(Simulator::Blockchain.max_blocks(), 1);
    assert_eq!(Simulator::BlockDag.max_blocks(), TIPS_LIMIT);
    assert_eq!(Simulator::Stress.max_blocks(), 10);
    assert_eq!(Simulator::Blockchain.max_txs(), 15);
    assert_eq!(Simulator::Stress.max_txs(), 200);
}

#[test]
fn same_text_compares_characters() {
    assert!(same_text("", ""));
    assert!(same_text("abc", "abc"));
    assert!(!same_text("abc", "abd"));
    assert!(!same_text("abc", "ab"));
    assert!(same_text("h\u{e9}llo", "h\u{e9}llo"));
    assert!(!same_text("h\u{e9}llo", "hello"));
}

#[test]
fn hash_order_is_lexicographic() {
    let mut low = [0u8; 32];
    low[31] = 0xff;
    let mut high = [0u8; 32];
    high[0] = 1;
    let low = crypto::Hash::new(low);
    let high = crypto::Hash::new(high);
    assert!(low.less_than(&high));
    assert!(!high.less_than(&low));
    assert!(!low.less_than(&low));
    assert!(low.equals(&low));
    assert!(!low.equals(&high));
    assert!(low < high);
    assert_eq!(crypto::Hash::zero(), hash(0));
    assert_eq!(hash(5).as_bytes(), &[5u8; 32]);
}

#[test]
fn hash_from_hex() {
    let text = "000102030405060708090a0b0c0d0e0f101112131415161718191A1B1C1D1E1F";
    let mut bytes = [0u8; 32];
    for (i, byte) in bytes.iter_mut().enumerate() {
        *byte = i as u8;
    }
    assert_eq!(crypto::Hash::from_hex(text), Ok(crypto::Hash::new(bytes)));
    assert_eq!(crypto::Hash::from_hex(&"ff".repeat(32)), Ok(hash(0xff)));
    assert_eq!(crypto::Hash::from_hex(&"0".repeat(64)), Ok(crypto::Hash::zero()));
    assert_eq!(crypto::Hash::from_hex(&"0".repeat(63)), Err(ReaderError::InvalidHex));
    assert_eq!(crypto::Hash::from_hex(&"0".repeat(65)), Err(ReaderError::InvalidHex));
    assert_eq!(crypto::Hash::from_hex(""), Err(ReaderError::InvalidHex));
    let mut bad = "0".repeat(63);
    bad.push('g');
    assert_eq!(crypto::Hash::from_hex(&bad), Err(ReaderError::InvalidHex));
    let mut wide = "0".repeat(62);
    wide.push('\u{e9}');
    assert_eq!(crypto::Hash::from_hex(&wide), Err(ReaderError::InvalidHex));
    assert_eq!(ReaderError::InvalidHex.message(), "Invalid hex");
}

#[test]
fn immutable_into_shared() {
    let shared = Immutable::Owned(5u8).into_shared();
    assert!(matches!(shared, Immutable::Arc(_)));
    assert_eq!(*shared.get_inner(), 5);
    let again = shared.clone().into_shared();
    assert_eq!(again, shared);
}

#[test]
fn public_key_and_ciphertext() {
    let a = crypto::PublicKey::new([1; 32]);
    let b = crypto::PublicKey::new([2; 32]);
    assert!(a.equals(&a));
    assert!(!a.equals(&b));
    assert_eq!(a.as_bytes(), &[1u8; 32]);
    let c = crypto::Ciphertext::new([3; 32], [4; 32]);
    assert_eq!(c.commitment(), &[3u8; 32]);
    assert_eq!(c.handle(), &[4u8; 32]);
    assert_eq!(crypto::Ciphertext::zero(), crypto::Ciphertext::new([0; 32], [0; 32]));
}

#[test]
fn vec_map_behaves_like_a_map() {
    let mut map: VecMap<crypto::Hash, u32> = VecMap::new();
    assert!(map.is_empty());
    assert_eq!(map.insert(hash(1), 10), None);
    assert_eq!(map.insert(hash(2), 20), None);
    assert_eq!(map.insert(hash(1), 11), Some(10));
    assert_eq!(map.len(), 2);
    assert_eq!(map.get(&hash(1)), Some(&11));
    assert_eq!(map.get(&hash(3)), None);
    assert!(map.contains(&hash(2)));
    assert_eq!(map.index_of(&hash(2)), Some(1));
    assert_eq!(map.index_of(&hash(9)), None);
    assert_eq!(*map.key_at(0), hash(1));
    assert_eq!(*map.value_at(1), 20);
    *map.value_at_mut(1) = 21;
    assert_eq!(map.get(&hash(2)), Some(&21));
    let copy = map.duplicate();
    assert_eq!(copy.get(&hash(2)), Some(&21));
    let clone = map.clone();
    assert_eq!(clone.len(), 2);
    assert_eq!(clone.get(&hash(1)), Some(&11));
}

#[test]
fn errors_convert() {
    assert_eq!(
        P2pError::from(BlockchainError::ExpectedTips),
        P2pError::BlockchainError(Box::new(BlockchainError::ExpectedTips))
    );
    assert_eq!(P2pError::from(ReaderError::InvalidSize), P2pError::ReaderError(ReaderError::InvalidSize));
    assert_eq!(*ObjectRequest::Block(hash(1)).get_hash(), hash(1));
    assert_eq!(*ObjectRequest::Transaction(hash(2)).get_hash(), hash(2));
}
