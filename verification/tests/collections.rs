use xelis_core::crypto;
use xelis_core::serializer::reader::Reader;
use xelis_core::serializer::sorted_set::{SortKey, SortedSet};
use xelis_core::serializer::{from_bytes, to_bytes, ReaderError, MAX_ITEMS};
use xelis_core::simulator::{
    amount_to_send, blocks_to_mine, next_local_nonce, pick_key, pick_recipient,
    record_local_nonce, transfers_to_make, txs_to_add, Simulator,
};
use xelis_core::vec_map::VecMap;

fn hash(byte: u8) -> crypto::Hash {
    crypto::Hash::new([byte; 32])
}

fn key(byte: u8) -> crypto::PublicKey {
    crypto::PublicKey::new([byte; 32])
}

#[test]
fn string_is_length_then_utf8() {
    assert_eq!(to_bytes(&String::from("abc")), vec![0, 3, b'a', b'b', b'c']);
    assert_eq!(to_bytes(&String::new()), vec![0, 0]);
    assert_eq!(to_bytes(&String::from("h\u{e9}")), vec![0, 3, b'h', 0xc3, 0xa9]);
    assert_eq!(from_bytes::<String>(&[0, 3, b'a', b'b', b'c', b'd']), Ok(String::from("abc")));
    assert_eq!(from_bytes::<String>(&[0, 3, b'h', 0xc3, 0xa9]), Ok(String::from("h\u{e9}")));
    assert_eq!(from_bytes::<String>(&[0, 0]), Ok(String::new()));
}

#[test]
fn string_errors() {
    assert_eq!(from_bytes::<String>(&[0]), Err(ReaderError::InvalidSize));
    assert_eq!(from_bytes::<String>(&[0, 3, b'a', b'b']), Err(ReaderError::InvalidSize));
    assert_eq!(from_bytes::<String>(&[0, 2, 0xc3, 0x28]), Err(ReaderError::InvalidValue));
    assert_eq!(from_bytes::<String>(&[0, 1, 0xff]), Err(ReaderError::InvalidValue));
}

#[test]
fn long_string_round_trips() {
    let text: String = "xy".repeat(30000);
    let bytes = to_bytes(&text);
    assert_eq!(bytes.len(), 2 + 60000);
    assert_eq!(&bytes[..2], &[0xea, 0x60]);
    assert_eq!(from_bytes::<String>(&bytes), Ok(text));
}

#[test]
fn pair_is_first_then_second() {
    let pair: (u16, bool) = (0x0102, true);
    assert_eq!(to_bytes(&pair), vec![1, 2, 1]);
    assert_eq!(from_bytes::<(u16, bool)>(&[1, 2, 1]), Ok(pair));
    assert_eq!(from_bytes::<(u16, bool)>(&[1, 2]), Err(ReaderError::InvalidSize));
    assert_eq!(from_bytes::<(u16, bool)>(&[1, 2, 2]), Err(ReaderError::InvalidValue));
    assert_eq!(from_bytes::<(bool, u16)>(&[2]), Err(ReaderError::InvalidValue));
}

#[test]
fn public_key_is_thirty_two_raw_bytes() {
    assert_eq!(to_bytes(&key(9)), vec![9u8; 32]);
    assert_eq!(from_bytes::<crypto::PublicKey>(&[9u8; 32]), Ok(key(9)));
    assert_eq!(from_bytes::<crypto::PublicKey>(&[9u8; 31]), Err(ReaderError::InvalidSize));
}

#[test]
fn sorted_set_keeps_ascending_order() {
    let mut set: SortedSet<u64> = SortedSet::new();
    assert!(set.insert(5));
    assert!(set.insert(1));
    assert!(set.insert(9));
    assert!(!set.insert(5));
    assert!(set.insert(7));
    assert!(set.insert(0));
    assert_eq!(set.len(), 5);
    assert_eq!(set.as_vec(), &vec![0, 1, 5, 7, 9]);
    assert_eq!(set.get(2), Some(&5));
    assert_eq!(set.get(5), None);
    assert!(5u64.comes_before(&6));
    assert!(!6u64.comes_before(&6));
}

#[test]
fn sorted_set_of_hashes() {
    let mut set: SortedSet<crypto::Hash> = SortedSet::new();
    assert!(set.insert(hash(3)));
    assert!(set.insert(hash(1)));
    assert!(set.insert(hash(2)));
    assert!(!set.insert(hash(1)));
    assert_eq!(set.as_vec(), &vec![hash(1), hash(2), hash(3)]);
    assert!(hash(1).comes_before(&hash(2)));
}

#[test]
fn sorted_set_round_trips() {
    let mut set: SortedSet<u64> = SortedSet::new();
    set.insert(0x0202);
    set.insert(0x0101);
    let bytes = to_bytes(&set);
    assert_eq!(bytes, vec![0, 2, 0, 0, 0, 0, 0, 0, 1, 1, 0, 0, 0, 0, 0, 0, 2, 2]);
    assert_eq!(from_bytes::<SortedSet<u64>>(&bytes), Ok(set));
}

#[test]
fn sorted_set_reads_any_order() {
    let bytes = vec![0, 3, 0, 0, 0, 0, 0, 0, 0, 9, 0, 0, 0, 0, 0, 0, 0, 2, 0, 0, 0, 0, 0, 0, 0, 5];
    let set = from_bytes::<SortedSet<u64>>(&bytes).unwrap();
    assert_eq!(set.as_vec(), &vec![2, 5, 9]);
}

#[test]
fn sorted_set_rejects_duplicates() {
    let bytes = vec![0, 3, 0, 0, 0, 0, 0, 0, 0, 9, 0, 0, 0, 0, 0, 0, 0, 2, 0, 0, 0, 0, 0, 0, 0, 9];
    assert_eq!(from_bytes::<SortedSet<u64>>(&bytes), Err(ReaderError::InvalidSize));
    // The duplicate is found before the value behind it is found to be cut short.
    let bytes = vec![0, 3, 0, 0, 0, 0, 0, 0, 0, 9, 0, 0, 0, 0, 0, 0, 0, 9, 0];
    assert_eq!(from_bytes::<SortedSet<u64>>(&bytes), Err(ReaderError::InvalidSize));
}

#[test]
fn sorted_set_rejects_too_many() {
    assert_eq!(from_bytes::<SortedSet<u64>>(&[4, 1]), Err(ReaderError::InvalidSize));
    let mut set: SortedSet<u64> = SortedSet::new();
    for i in 0..(MAX_ITEMS as u64) {
        set.insert(MAX_ITEMS as u64 - i);
    }
    let bytes = to_bytes(&set);
    assert_eq!(bytes.len(), 2 + 8 * MAX_ITEMS);
    assert_eq!(from_bytes::<SortedSet<u64>>(&bytes).unwrap(), set);
}

#[test]
fn map_is_count_then_pairs() {
    let mut map: VecMap<u64, bool> = VecMap::new();
    map.insert(2, true);
    map.insert(1, false);
    let bytes = to_bytes(&map);
    assert_eq!(bytes, vec![0, 2, 0, 0, 0, 0, 0, 0, 0, 2, 1, 0, 0, 0, 0, 0, 0, 0, 1, 0]);
    let read = from_bytes::<VecMap<u64, bool>>(&bytes).unwrap();
    assert_eq!(read.len(), 2);
    assert_eq!(*read.key_at(0), 2);
    assert_eq!(read.get(&2), Some(&true));
    assert_eq!(read.get(&1), Some(&false));
    assert_eq!(to_bytes(&VecMap::<u64, bool>::new()), vec![0, 0]);
}

#[test]
fn map_key_that_comes_again_replaces_the_value() {
    let bytes = vec![0, 3, 0, 0, 0, 0, 0, 0, 0, 2, 1, 0, 0, 0, 0, 0, 0, 0, 1, 0, 0, 0, 0, 0, 0, 0, 0, 2, 0];
    let read = from_bytes::<VecMap<u64, bool>>(&bytes).unwrap();
    assert_eq!(read.len(), 2);
    assert_eq!(read.get(&2), Some(&false));
    assert_eq!(*read.key_at(0), 2);
    assert_eq!(*read.key_at(1), 1);
}

#[test]
fn map_errors() {
    assert_eq!(from_bytes::<VecMap<u64, bool>>(&[0]), Err(ReaderError::InvalidSize));
    assert_eq!(from_bytes::<VecMap<u64, bool>>(&[0, 1, 0, 0]), Err(ReaderError::InvalidSize));
    assert_eq!(
        from_bytes::<VecMap<u64, bool>>(&[0, 1, 0, 0, 0, 0, 0, 0, 0, 2, 7]),
        Err(ReaderError::InvalidValue)
    );
}

#[test]
fn map_of_hashes_round_trips() {
    let mut map: VecMap<crypto::Hash, Vec<u8>> = VecMap::new();
    map.insert(hash(8), vec![1, 2]);
    map.insert(hash(3), Vec::new());
    let bytes = to_bytes(&map);
    assert_eq!(bytes.len(), 2 + 32 + 4 + 32 + 2);
    let mut reader = Reader::new(&bytes);
    let read = <VecMap<crypto::Hash, Vec<u8>> as xelis_core::serializer::Serializer>::read(&mut reader).unwrap();
    assert_eq!(reader.size(), 0);
    assert_eq!(read.get(&hash(8)), Some(&vec![1, 2]));
    assert_eq!(read.get(&hash(3)), Some(&Vec::new()));
    assert_eq!(*read.key_at(0), hash(8));
}

#[test]
fn simulator_choices_stay_in_range() {
    for _ in 0..200 {
        let count = Simulator::BlockDag.blocks_count();
        assert!(1 <= count && count <= 3);
        let count = Simulator::Stress.blocks_count();
        assert!(1 <= count && count <= 10);
        assert_eq!(Simulator::Blockchain.blocks_count(), 1);
        let count = blocks_to_mine(4);
        assert!(1 <= count && count <= 4);
        assert!(txs_to_add(15) < 15);
        let count = transfers_to_make(15);
        assert!(1 <= count && count <= 15);
        let amount = amount_to_send(50);
        assert!(1 <= amount && amount <= 50);
        assert!(pick_key(7).unwrap() < 7);
        let other = pick_recipient(5, 2).unwrap();
        assert!(other < 5 && other != 2);
        let other = pick_recipient(2, 0).unwrap();
        assert_eq!(other, 1);
        let other = pick_recipient(2, 1).unwrap();
        assert_eq!(other, 0);
    }
}

#[test]
fn simulator_choices_at_the_edges() {
    assert_eq!(blocks_to_mine(0), 0);
    assert_eq!(blocks_to_mine(1), 1);
    assert_eq!(txs_to_add(0), 0);
    assert_eq!(txs_to_add(1), 0);
    assert_eq!(transfers_to_make(0), 0);
    assert_eq!(amount_to_send(0), 0);
    assert_eq!(amount_to_send(1), 1);
    assert_eq!(pick_key(0), None);
    assert_eq!(pick_key(1), Some(0));
    assert_eq!(pick_recipient(0, 0), None);
    assert_eq!(pick_recipient(1, 0), None);
    assert_eq!(pick_recipient(3, 3), None);
}

#[test]
fn simulator_reaches_every_choice() {
    let mut seen = [false; 4];
    for _ in 0..400 {
        let other = pick_recipient(5, 2).unwrap();
        let slot = if other < 2 { other } else { other - 1 };
        seen[slot] = true;
    }
    assert_eq!(seen, [true; 4]);
}

#[test]
fn local_nonces_count_up() {
    let mut local: VecMap<crypto::PublicKey, u64> = VecMap::new();
    assert_eq!(next_local_nonce(&mut local, &key(1)), None);
    record_local_nonce(&mut local, key(1), 10);
    assert_eq!(next_local_nonce(&mut local, &key(1)), Some(11));
    assert_eq!(next_local_nonce(&mut local, &key(1)), Some(12));
    assert_eq!(next_local_nonce(&mut local, &key(2)), None);
    record_local_nonce(&mut local, key(2), u64::MAX);
    assert_eq!(next_local_nonce(&mut local, &key(2)), Some(0));
    assert_eq!(local.get(&key(1)), Some(&12));
}
