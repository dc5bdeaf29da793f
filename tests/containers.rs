use std::collections::{BTreeMap, BTreeSet, HashMap, HashSet, VecDeque};

use bytecodec::hashed::{decode_hash_map, decode_hash_map_from, decode_hash_set};
use bytecodec::maps::{decode_btree_map, decode_btree_map_from, decode_btree_set};
use bytecodec::{ByteReader, CodecError, Decode, Encode, MAX_LEN};

#[test]
fn sorted_map_layout_is_count_then_pairs_in_key_order() {
    let mut m = BTreeMap::new();
    m.insert(3u16, true);
    m.insert(1u16, false);
    let bytes = m.encode().unwrap();
    assert_eq!(bytes, vec![2, 0, 1, 0, 0, 3, 0, 1]);
    assert_eq!(m.size().unwrap(), 8);
    assert_eq!(m.fast_size(), 8);
    let (back, n) = decode_btree_map_from::<u16, bool>(&mut ByteReader::new(&bytes)).unwrap();
    assert_eq!(back, m);
    assert_eq!(n, 8);
}

#[test]
fn sorted_map_with_nested_values_round_trips() {
    let mut m: BTreeMap<usize, [u8; 32]> = BTreeMap::new();
    for i in 0..20usize {
        m.insert(i * 7, [i as u8; 32]);
    }
    let bytes = m.encode().unwrap();
    assert_eq!(bytes.len(), 2 + 20 * 40);
    assert_eq!(m.fast_size(), bytes.len());
    assert_eq!(decode_btree_map::<usize, [u8; 32]>(&bytes).unwrap(), m);

    let mut words: BTreeMap<i32, Vec<u8>> = BTreeMap::new();
    words.insert(-5, b"minus".to_vec());
    words.insert(9, vec![]);
    let bytes = words.encode().unwrap();
    assert_eq!(bytes.len(), words.size().unwrap());
    assert_eq!(decode_btree_map::<i32, Vec<u8>>(&bytes).unwrap(), words);
}

#[test]
fn sorted_map_accepts_any_key_order() {
    let m = decode_btree_map::<u8, u8>(&[2, 0, 5, 50, 4, 40]).unwrap();
    assert_eq!(m, BTreeMap::from([(4, 40), (5, 50)]));
    let m = decode_btree_map::<u8, u8>(&[2, 0, 5, 50, 5, 40]).unwrap();
    assert_eq!(m, BTreeMap::from([(5, 40)]));
    assert_eq!(decode_btree_map::<u8, u8>(&[2, 0, 5, 50, 6]), Err(CodecError::UnexpectedEof));
    assert_eq!(decode_btree_map::<u8, bool>(&[1, 0, 5, 9]), Err(CodecError::InvalidData));
    assert_eq!(decode_btree_map::<u8, bool>(&[9, 0, 5, 9]), Err(CodecError::UnexpectedEof));
    assert_eq!(decode_btree_set::<u8>(&[0]), Err(CodecError::UnexpectedEof));
}

#[test]
fn sorted_map_cap_is_enforced() {
    let mut at_cap: BTreeMap<u32, u8> = BTreeMap::new();
    for i in 0..MAX_LEN as u32 {
        at_cap.insert(i, 0);
    }
    assert_eq!(at_cap.encode().unwrap().len(), 2 + MAX_LEN * 5);
    at_cap.insert(MAX_LEN as u32, 0);
    assert_eq!(at_cap.encode(), Err(CodecError::InvalidInput));
    assert_eq!(at_cap.size(), Err(CodecError::InvalidInput));
    assert_eq!(at_cap.fast_size(), 0);
}

#[test]
fn sorted_set_round_trips_in_increasing_order() {
    let s: BTreeSet<i16> = [300, -2, 7].into_iter().collect();
    let bytes = s.encode().unwrap();
    assert_eq!(bytes, vec![3, 0, 0xFE, 0xFF, 7, 0, 0x2C, 0x01]);
    assert_eq!(s.fast_size(), 8);
    assert_eq!(decode_btree_set::<i16>(&bytes).unwrap(), s);
    assert_eq!(decode_btree_set::<u8>(&[2, 0, 9, 9]).unwrap(), BTreeSet::from([9]));
    assert_eq!(decode_btree_set::<u8>(&[2, 0, 9, 3]).unwrap(), BTreeSet::from([3, 9]));
    assert_eq!(decode_btree_set::<u8>(&[3, 0, 1, 2]), Err(CodecError::UnexpectedEof));
    assert_eq!(BTreeSet::<u64>::new().encode().unwrap(), vec![0, 0]);
}

#[test]
fn sorted_set_cap_is_enforced() {
    let s: BTreeSet<u32> = (0..=MAX_LEN as u32).collect();
    assert_eq!(s.encode(), Err(CodecError::InvalidInput));
    let s: BTreeSet<u32> = (0..MAX_LEN as u32).collect();
    assert_eq!(s.encode().unwrap().len(), 2 + 4 * MAX_LEN);
}

#[test]
fn deque_has_the_sequence_layout() {
    let mut q = VecDeque::new();
    q.push_back(2u16);
    q.push_front(1u16);
    let bytes = q.encode().unwrap();
    assert_eq!(bytes, vec![2, 0, 1, 0, 2, 0]);
    assert_eq!(bytes, vec![1u16, 2].encode().unwrap());
    assert_eq!(VecDeque::<u16>::decode(&bytes).unwrap(), q);
    let big: VecDeque<u8> = std::iter::repeat(0).take(MAX_LEN + 1).collect();
    assert_eq!(big.encode(), Err(CodecError::InvalidInput));
}

#[test]
fn hashed_map_round_trips_by_contents() {

    let mut m: HashMap<u32, Option<u8>> = HashMap::new();
    m.insert(10, Some(1));
    m.insert(20, None);
    m.insert(30, Some(3));
    let bytes = m.encode().unwrap();
    assert_eq!(bytes.len(), m.size().unwrap());
    assert_eq!(&bytes[..2], &[3, 0]);
    assert_eq!(decode_hash_map::<u32, Option<u8>>(&bytes).unwrap(), m);
    let mut reader = ByteReader::new(&bytes);
    let (back, n) = decode_hash_map_from::<u32, Option<u8>>(&mut reader).unwrap();
    assert_eq!(back, m);
    assert_eq!(n, bytes.len());
}

#[test]
fn hashed_map_later_entries_replace_earlier_ones() {
    let m = decode_hash_map::<u8, u8>(&[3, 0, 1, 10, 2, 20, 1, 30]).unwrap();
    assert_eq!(m.len(), 2);
    assert_eq!(m[&1], 30);
    assert_eq!(m[&2], 20);
    assert_eq!(decode_hash_map::<u8, u8>(&[2, 0, 1, 10]), Err(CodecError::UnexpectedEof));
}

#[test]
fn hashed_set_round_trips_by_contents() {

    let s: HashSet<i64> = [-1, 0, 1 << 40].into_iter().collect();
    let bytes = s.encode().unwrap();
    assert_eq!(bytes.len(), 2 + 3 * 8);
    assert_eq!(s.fast_size(), bytes.len());
    assert_eq!(decode_hash_set::<i64>(&bytes).unwrap(), s);
    let big: HashSet<u32> = (0..=MAX_LEN as u32).collect();
    assert_eq!(big.encode(), Err(CodecError::InvalidInput));
    let ok: HashSet<u32> = (0..MAX_LEN as u32).collect();
    assert!(ok.encode().is_ok());
}
