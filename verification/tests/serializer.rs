use std::borrow::Cow;
use xelis_core::crypto;
use xelis_core::serializer::reader::Reader;
use xelis_core::serializer::sets::{HashIndexSet, TipSet};
use xelis_core::serializer::writer::Writer;
use xelis_core::serializer::{from_bytes, to_bytes, ReaderError, Serializer, MAX_ITEMS};

fn hash(byte: u8) -> crypto::Hash {
    crypto::Hash::new([byte; 32])
}

#[test]
fn integers_are_big_endian() {
    assert_eq!(to_bytes(&0x12u8), vec![0x12]);
    assert_eq!(to_bytes(&0x1234u16), vec![0x12, 0x34]);
    assert_eq!(to_bytes(&0x1234_5678u32), vec![0x12, 0x34, 0x56, 0x78]);
    assert_eq!(
        to_bytes(&0x0102_0304_0506_0708u64),
        vec![0x01, 0x02, 0x03, 0x04, 0x05, 0x06, 0x07, 0x08]
    );
    assert_eq!(
        to_bytes(&0x0102_0304_0506_0708_090a_0b0c_0d0e_0f10u128),
        vec![
            0x01, 0x02, 0x03, 0x04, 0x05, 0x06, 0x07, 0x08, 0x09, 0x0a, 0x0b, 0x0c, 0x0d, 0x0e,
            0x0f, 0x10
        ]
    );
}

#[test]
fn integers_round_trip_at_their_bounds() {
    assert_eq!(from_bytes::<u8>(&to_bytes(&u8::MAX)), Ok(u8::MAX));
    assert_eq!(from_bytes::<u16>(&to_bytes(&u16::MAX)), Ok(u16::MAX));
    assert_eq!(from_bytes::<u32>(&to_bytes(&u32::MAX)), Ok(u32::MAX));
    assert_eq!(from_bytes::<u64>(&to_bytes(&u64::MAX)), Ok(u64::MAX));
    assert_eq!(from_bytes::<u128>(&to_bytes(&u128::MAX)), Ok(u128::MAX));
    assert_eq!(from_bytes::<u64>(&to_bytes(&0u64)), Ok(0));
    assert_eq!(from_bytes::<u64>(&[0, 0, 0, 0, 0, 0, 1, 0]), Ok(256));
    assert_eq!(from_bytes::<u32>(&[0xde, 0xad, 0xbe, 0xef]), Ok(0xdead_beef));
}

#[test]
fn short_input_is_invalid_size() {
    assert_eq!(from_bytes::<u8>(&[]), Err(ReaderError::InvalidSize));
    assert_eq!(from_bytes::<u16>(&[1]), Err(ReaderError::InvalidSize));
    assert_eq!(from_bytes::<u32>(&[1, 2, 3]), Err(ReaderError::InvalidSize));
    assert_eq!(from_bytes::<u64>(&[1, 2, 3, 4, 5, 6, 7]), Err(ReaderError::InvalidSize));
    assert_eq!(from_bytes::<u128>(&[0; 15]), Err(ReaderError::InvalidSize));
    assert_eq!(from_bytes::<crypto::Hash>(&[0; 31]), Err(ReaderError::InvalidSize));
    assert_eq!(from_bytes::<[u8; 4]>(&[0; 3]), Err(ReaderError::InvalidSize));
    assert_eq!(from_bytes::<bool>(&[]), Err(ReaderError::InvalidSize));
}

#[test]
fn bool_is_one_byte() {
    assert_eq!(to_bytes(&true), vec![1]);
    assert_eq!(to_bytes(&false), vec![0]);
    assert_eq!(from_bytes::<bool>(&[0]), Ok(false));
    assert_eq!(from_bytes::<bool>(&[1]), Ok(true));
    assert_eq!(from_bytes::<bool>(&[2]), Err(ReaderError::InvalidValue));
    assert_eq!(from_bytes::<bool>(&[255]), Err(ReaderError::InvalidValue));
}

#[test]
fn hash_is_thirty_two_raw_bytes() {
    let mut bytes = [0u8; 32];
    for (i, byte) in bytes.iter_mut().enumerate() {
        *byte = i as u8;
    }
    let value = crypto::Hash::new(bytes);
    assert_eq!(to_bytes(&value), bytes.to_vec());
    assert_eq!(from_bytes::<crypto::Hash>(&bytes), Ok(value));
}

#[test]
fn fixed_array_has_no_length() {
    let value: [u8; 5] = [9, 8, 7, 6, 5];
    assert_eq!(to_bytes(&value), vec![9, 8, 7, 6, 5]);
    assert_eq!(from_bytes::<[u8; 5]>(&[9, 8, 7, 6, 5, 4]), Ok(value));
    let empty: [u8; 0] = [];
    assert_eq!(to_bytes(&empty), Vec::<u8>::new());
    assert_eq!(from_bytes::<[u8; 0]>(&[]), Ok(empty));
}

#[test]
fn option_is_bool_then_value() {
    assert_eq!(to_bytes(&Some(0x0102u16)), vec![1, 1, 2]);
    assert_eq!(to_bytes(&None::<u16>), vec![0]);
    assert_eq!(from_bytes::<Option<u16>>(&[1, 1, 2]), Ok(Some(0x0102)));
    assert_eq!(from_bytes::<Option<u16>>(&[0, 1, 2]), Ok(None));
    assert_eq!(from_bytes::<Option<u16>>(&[1, 1]), Err(ReaderError::InvalidSize));
    assert_eq!(from_bytes::<Option<u16>>(&[3, 1, 2]), Err(ReaderError::InvalidValue));
    assert_eq!(from_bytes::<Option<u16>>(&[]), Err(ReaderError::InvalidSize));
    let nested: Option<Option<u8>> = Some(None);
    assert_eq!(to_bytes(&nested), vec![1, 0]);
    assert_eq!(from_bytes::<Option<Option<u8>>>(&[1, 0]), Ok(nested));
}

#[test]
fn vec_has_a_two_byte_count() {
    let values: Vec<u16> = vec![1, 2, 0x0304];
    assert_eq!(to_bytes(&values), vec![0, 3, 0, 1, 0, 2, 3, 4]);
    assert_eq!(from_bytes::<Vec<u16>>(&[0, 3, 0, 1, 0, 2, 3, 4]), Ok(values));
    assert_eq!(to_bytes(&Vec::<u64>::new()), vec![0, 0]);
    assert_eq!(from_bytes::<Vec<u64>>(&[0, 0]), Ok(Vec::new()));
    assert_eq!(from_bytes::<Vec<u16>>(&[0, 2, 0, 1, 0]), Err(ReaderError::InvalidSize));
    assert_eq!(from_bytes::<Vec<u16>>(&[0]), Err(ReaderError::InvalidSize));
    assert_eq!(from_bytes::<Vec<bool>>(&[0, 2, 1, 7]), Err(ReaderError::InvalidValue));
}

#[test]
fn vec_of_max_items_round_trips() {
    let values: Vec<u8> = (0..MAX_ITEMS).map(|i| (i % 251) as u8).collect();
    let bytes = to_bytes(&values);
    assert_eq!(bytes.len(), 2 + MAX_ITEMS);
    assert_eq!(&bytes[..2], &[4, 0]);
    assert_eq!(from_bytes::<Vec<u8>>(&bytes), Ok(values));
}

#[test]
fn vec_above_max_items_is_rejected() {
    let values: Vec<u8> = vec![7; MAX_ITEMS + 1];
    let bytes = to_bytes(&values);
    assert_eq!(&bytes[..2], &[4, 1]);
    assert_eq!(from_bytes::<Vec<u8>>(&bytes), Err(ReaderError::InvalidSize));
    assert_eq!(from_bytes::<Vec<u8>>(&[0xff, 0xff]), Err(ReaderError::InvalidSize));
}

#[test]
fn nested_vec_round_trips() {
    let values: Vec<Vec<Option<u32>>> = vec![vec![Some(1), None], Vec::new(), vec![Some(u32::MAX)]];
    let bytes = to_bytes(&values);
    assert_eq!(
        bytes,
        vec![0, 3, 0, 2, 1, 0, 0, 0, 1, 0, 0, 0, 0, 1, 1, 255, 255, 255, 255]
    );
    assert_eq!(from_bytes::<Vec<Vec<Option<u32>>>>(&bytes), Ok(values));
}

#[test]
fn cow_is_written_as_its_value() {
    let owned: Cow<u32> = Cow::Owned(0x0a0b0c0d);
    let value: u32 = 0x0a0b0c0d;
    let borrowed: Cow<u32> = Cow::Borrowed(&value);
    assert_eq!(to_bytes(&owned), vec![0x0a, 0x0b, 0x0c, 0x0d]);
    assert_eq!(to_bytes(&borrowed), vec![0x0a, 0x0b, 0x0c, 0x0d]);
    let read = from_bytes::<Cow<u32>>(&[0x0a, 0x0b, 0x0c, 0x0d]).unwrap();
    assert_eq!(read, owned);
    assert!(matches!(read, Cow::Owned(_)));
}

#[test]
fn writer_appends_in_order() {
    let mut writer = Writer::new();
    writer.write_u8(1);
    writer.write_u16(0x0203);
    writer.write_u32(&0x0405_0607);
    writer.write_u64(&0x0809_0a0b_0c0d_0e0f);
    writer.write_bool(true);
    writer.write_bytes(&[0xaa, 0xbb]);
    writer.write_hash(&hash(0xcc));
    assert_eq!(writer.total_write(), 1 + 2 + 4 + 8 + 1 + 2 + 32);
    let mut expected: Vec<u8> = (1u8..=15).collect();
    expected.push(1);
    expected.extend_from_slice(&[0xaa, 0xbb]);
    expected.extend_from_slice(&[0xcc; 32]);
    assert_eq!(writer.as_bytes(), expected.as_slice());
    assert_eq!(writer.bytes(), expected);
}

#[test]
fn reader_keeps_count_of_what_it_read() {
    let bytes: Vec<u8> = vec![1, 0, 2, 0, 0, 0, 3, 9, 9];
    let mut reader = Reader::new(&bytes);
    assert_eq!(reader.total_size(), 9);
    assert_eq!(reader.size(), 9);
    assert_eq!(reader.read_u8(), Ok(1));
    assert_eq!(reader.read_u16(), Ok(2));
    assert_eq!(reader.read_u32(), Ok(3));
    assert_eq!(reader.total_read(), 7);
    assert_eq!(reader.size(), 2);
    assert_eq!(reader.read_u32(), Err(ReaderError::InvalidSize));
    assert_eq!(reader.total_read(), 7);
    assert_eq!(reader.read_bytes_ref(2), Ok(&[9u8, 9u8][..]));
    assert_eq!(reader.size(), 0);
    assert_eq!(reader.read_u8(), Err(ReaderError::InvalidSize));
    assert_eq!(reader.read_bytes_ref(0), Ok(&[][..]));
    assert_eq!(reader.read_bytes::<1>(), Err(ReaderError::InvalidSize));
}

#[test]
fn strings_through_reader_and_writer() {
    let mut writer = Writer::new();
    writer.write_string(&String::from("ok"));
    writer.write_u8(7);
    let bytes = writer.bytes();
    assert_eq!(bytes, vec![0, 2, b'o', b'k', 7]);
    let mut reader = Reader::new(&bytes);
    assert_eq!(reader.read_string(), Ok(String::from("ok")));
    assert_eq!(reader.read_u8(), Ok(7));
    assert_eq!(reader.read_string(), Err(ReaderError::InvalidSize));
}

#[test]
fn reader_error_messages() {
    assert_eq!(ReaderError::InvalidSize.message(), "Invalid size");
    assert_eq!(ReaderError::InvalidValue.message(), "Invalid value");
}

#[test]
fn hash_index_set_keeps_insertion_order() {
    let mut set = HashIndexSet::new();
    assert!(set.is_empty());
    assert!(set.insert(hash(3)));
    assert!(set.insert(hash(1)));
    assert!(!set.insert(hash(3)));
    assert!(set.insert(hash(2)));
    assert_eq!(set.len(), 3);
    assert_eq!(set.to_vec(), vec![hash(3), hash(1), hash(2)]);
    assert_eq!(set.get_index(1), Some(hash(1)));
    assert_eq!(set.get_index(3), None);
    assert!(set.contains(&hash(2)));
    assert!(!set.contains(&hash(4)));
}

#[test]
fn hash_index_set_round_trips() {
    let mut set = HashIndexSet::new();
    set.insert(hash(3));
    set.insert(hash(1));
    let bytes = to_bytes(&set);
    let mut expected: Vec<u8> = vec![0, 2];
    expected.extend_from_slice(&[3; 32]);
    expected.extend_from_slice(&[1; 32]);
    assert_eq!(bytes, expected);
    let read = from_bytes::<HashIndexSet>(&bytes).unwrap();
    assert_eq!(read.to_vec(), vec![hash(3), hash(1)]);
    assert_eq!(read, set);
    assert_eq!(to_bytes(&HashIndexSet::new()), vec![0, 0]);
}

#[test]
fn hash_index_set_rejects_duplicates() {
    let mut bytes: Vec<u8> = vec![0, 3];
    bytes.extend_from_slice(&[5; 32]);
    bytes.extend_from_slice(&[6; 32]);
    bytes.extend_from_slice(&[5; 32]);
    assert_eq!(from_bytes::<HashIndexSet>(&bytes), Err(ReaderError::InvalidSize));
}

#[test]
fn hash_index_set_rejects_too_many_and_too_short() {
    assert_eq!(from_bytes::<HashIndexSet>(&[4, 1]), Err(ReaderError::InvalidSize));
    let mut bytes: Vec<u8> = vec![0, 2];
    bytes.extend_from_slice(&[5; 32]);
    bytes.extend_from_slice(&[6; 31]);
    assert_eq!(from_bytes::<HashIndexSet>(&bytes), Err(ReaderError::InvalidSize));
    assert_eq!(from_bytes::<HashIndexSet>(&[0]), Err(ReaderError::InvalidSize));
}

#[test]
fn hash_index_set_of_max_items_round_trips() {
    let mut set = HashIndexSet::new();
    for i in 0..MAX_ITEMS {
        let mut bytes = [0u8; 32];
        bytes[0] = (i / 256) as u8;
        bytes[1] = (i % 256) as u8;
        assert!(set.insert(crypto::Hash::new(bytes)));
    }
    let bytes = to_bytes(&set);
    assert_eq!(bytes.len(), 2 + 32 * MAX_ITEMS);
    assert_eq!(from_bytes::<HashIndexSet>(&bytes).unwrap(), set);
}

#[test]
fn tip_set_is_a_flat_run_of_hashes() {
    let mut tips = TipSet::new();
    assert!(tips.insert(hash(2)));
    assert!(tips.insert(hash(1)));
    assert!(!tips.insert(hash(2)));
    assert_eq!(tips.len(), 2);
    assert!(tips.contains(&hash(1)));
    let mut writer = Writer::new();
    tips.write(&mut writer);
    let mut expected: Vec<u8> = Vec::new();
    expected.extend_from_slice(&[2; 32]);
    expected.extend_from_slice(&[1; 32]);
    assert_eq!(writer.as_bytes(), expected.as_slice());
    let mut reader = Reader::new(&expected);
    let read = TipSet::read(&mut reader).unwrap();
    assert_eq!(read.to_vec(), vec![hash(2), hash(1)]);
    assert_eq!(reader.size(), 0);
}

#[test]
fn tip_set_rejects_a_length_that_is_no_multiple_of_32() {
    let bytes = [0u8; 33];
    let mut reader = Reader::new(&bytes);
    assert_eq!(TipSet::read(&mut reader), Err(ReaderError::InvalidSize));
    let bytes = [0u8; 31];
    let mut reader = Reader::new(&bytes);
    assert_eq!(TipSet::read(&mut reader), Err(ReaderError::InvalidSize));
}

#[test]
fn tip_set_rejects_duplicates() {
    let mut bytes: Vec<u8> = Vec::new();
    bytes.extend_from_slice(&[7; 32]);
    bytes.extend_from_slice(&[7; 32]);
    let mut reader = Reader::new(&bytes);
    assert_eq!(TipSet::read(&mut reader), Err(ReaderError::InvalidSize));
}

#[test]
fn empty_tip_set() {
    let bytes: [u8; 0] = [];
    let mut reader = Reader::new(&bytes);
    let tips = TipSet::read(&mut reader).unwrap();
    assert_eq!(tips.len(), 0);
}

#[test]
fn values_are_read_one_after_the_other() {
    let mut writer = Writer::new();
    Some(7u64).write(&mut writer);
    vec![true, false].write(&mut writer);
    hash(9).write(&mut writer);
    let bytes = writer.bytes();
    let mut reader = Reader::new(&bytes);
    assert_eq!(Option::<u64>::read(&mut reader), Ok(Some(7)));
    assert_eq!(Vec::<bool>::read(&mut reader), Ok(vec![true, false]));
    assert_eq!(crypto::Hash::read(&mut reader), Ok(hash(9)));
    assert_eq!(reader.size(), 0);
}
