use bytecodec::bytes::{decode_bytes, encode_bytes};
use bytecodec::{ByteReader, CodecError, Decode, Encode, MAX_LEN};

#[test]
fn u16_300_is_two_little_endian_bytes() {
    assert_eq!(300u16.encode().unwrap(), vec![0x2C, 0x01]);
    assert_eq!(u16::decode_with_len(&[0x2C, 0x01]).unwrap(), (300, 2));
}

#[test]
fn empty_sequences_are_two_zero_bytes() {
    assert_eq!(Vec::<u8>::new().encode().unwrap(), vec![0x00, 0x00]);
    assert_eq!(Vec::<u64>::new().encode().unwrap(), vec![0x00, 0x00]);
    assert_eq!(Vec::<Vec<bool>>::new().encode().unwrap(), vec![0x00, 0x00]);
    assert_eq!(encode_bytes(&[]).unwrap(), vec![0x00, 0x00]);
}

#[test]
fn optional_booleans() {
    assert_eq!(Some(true).encode().unwrap(), vec![0x01, 0x01]);
    assert_eq!(None::<bool>.encode().unwrap(), vec![0x00]);
    assert_eq!(Option::<bool>::decode_with_len(&[0x00]).unwrap(), (None, 1));
    assert_eq!(Option::<bool>::decode_with_len(&[0x01, 0x00]).unwrap(), (Some(false), 2));
}

#[test]
fn optional_sizes() {
    assert_eq!(None::<u64>.encode().unwrap().len(), 1);
    assert_eq!(Some(7u64).encode().unwrap().len(), 1 + 7u64.size().unwrap());
    assert_eq!(Some(7u64).size().unwrap(), 9);
    assert_eq!(None::<u64>.fast_size(), 1);
    assert_eq!(Option::<u64>::decode_with_len(&[0x00, 0xFF]).unwrap(), (None, 1));
}

#[test]
fn boolean_decode_rejects_other_bytes() {
    assert_eq!(bool::decode(&[0x00]).unwrap(), false);
    assert_eq!(bool::decode(&[0x01]).unwrap(), true);
    for b in 2u8..=255 {
        assert_eq!(bool::decode(&[b]), Err(CodecError::InvalidData));
    }
    assert_eq!(bool::decode(&[]), Err(CodecError::UnexpectedEof));
}

#[test]
fn collection_cap_is_enforced() {
    let at_cap = vec![7u8; MAX_LEN];
    let encoded = at_cap.encode().unwrap();
    assert_eq!(encoded.len(), MAX_LEN + 2);
    assert_eq!(&encoded[..2], &[0xFF, 0xFF]);
    let over = vec![7u8; MAX_LEN + 1];
    assert_eq!(over.encode(), Err(CodecError::InvalidInput));
    assert_eq!(over.size(), Err(CodecError::InvalidInput));
    assert_eq!(over.fast_size(), 0);
    let mut out = Vec::new();
    assert_eq!(over.encode_into(&mut out), Err(CodecError::InvalidInput));
    assert_eq!(encode_bytes(&over), Err(CodecError::InvalidInput));
    assert_eq!(encode_bytes(&at_cap).unwrap(), encoded);
    let units = vec![true; MAX_LEN + 1];
    assert_eq!(units.encode(), Err(CodecError::InvalidInput));
}

#[test]
fn nested_collection_over_cap_fails() {
    let inner = vec![0u8; MAX_LEN + 1];
    let outer = vec![Vec::new(), inner];
    assert_eq!(outer.encode(), Err(CodecError::InvalidInput));
    assert_eq!(outer.size(), Err(CodecError::InvalidInput));
    assert_eq!(Some(vec![1u16; MAX_LEN + 1]).encode(), Err(CodecError::InvalidInput));
}

#[test]
fn truncated_inputs_fail_with_end_of_data() {
    assert_eq!(<[u8; 4]>::decode(&[1, 2, 3]), Err(CodecError::UnexpectedEof));
    assert_eq!(<[u8; 4]>::decode(&[1, 2, 3, 4]).unwrap(), [1, 2, 3, 4]);
    assert_eq!(decode_bytes(&[5, 0, 1, 2, 3]), Err(CodecError::UnexpectedEof));
    assert_eq!(decode_bytes(&[5]), Err(CodecError::UnexpectedEof));
    assert_eq!(Vec::<u8>::decode(&[5, 0, 1, 2, 3]), Err(CodecError::UnexpectedEof));
    assert_eq!(Vec::<u32>::decode(&[2, 0, 1, 2, 3, 4]), Err(CodecError::UnexpectedEof));
    assert_eq!(u64::decode(&[1, 2, 3, 4, 5, 6, 7]), Err(CodecError::UnexpectedEof));
    assert_eq!(Vec::<bool>::decode(&[5, 0, 7]), Err(CodecError::UnexpectedEof));
    assert_eq!(Vec::<bool>::decode(&[1, 0, 7]), Err(CodecError::InvalidData));
    assert_eq!(Vec::<Option<u8>>::decode(&[3, 0, 2, 2]), Err(CodecError::UnexpectedEof));
    assert_eq!(Vec::<u8>::decode(&[1]), Err(CodecError::UnexpectedEof));
    assert_eq!(Vec::<[u8; 0]>::decode(&[3, 0]).unwrap(), vec![[0u8; 0]; 3]);
    assert_eq!(<(u8, u32)>::decode(&[1, 2, 3]), Err(CodecError::UnexpectedEof));
}

#[test]
fn integers_are_little_endian_at_full_width() {
    assert_eq!(0xABu8.encode().unwrap(), vec![0xAB]);
    assert_eq!(0x0102_0304u32.encode().unwrap(), vec![4, 3, 2, 1]);
    assert_eq!(1u64.encode().unwrap(), vec![1, 0, 0, 0, 0, 0, 0, 0]);
    assert_eq!((-2i16).encode().unwrap(), vec![0xFE, 0xFF]);
    assert_eq!((-1i8).encode().unwrap(), vec![0xFF]);
    assert_eq!(i32::MIN.encode().unwrap(), vec![0, 0, 0, 0x80]);
    assert_eq!(1u128.encode().unwrap().len(), 16);
    assert_eq!(u128::MAX.encode().unwrap(), vec![0xFF; 16]);
    assert_eq!(i128::decode(&[0xFF; 16]).unwrap(), -1);
    assert_eq!(5usize.encode().unwrap(), vec![5, 0, 0, 0, 0, 0, 0, 0]);
    assert_eq!((-5isize).encode().unwrap(), (-5i64).encode().unwrap());
    assert_eq!(usize::decode_with_len(&[9, 0, 0, 0, 0, 0, 0, 0, 1]).unwrap(), (9, 8));
    assert_eq!(i64::decode(&(-123456789i64).encode().unwrap()).unwrap(), -123456789);
}

#[test]
fn round_trips_keep_values_and_lengths() {
    let v: Vec<(u16, Option<i32>)> = vec![(1, None), (2, Some(-3)), (65535, Some(i32::MAX))];
    let bytes = v.encode().unwrap();
    assert_eq!(bytes.len(), v.size().unwrap());
    let mut with_tail = bytes.clone();
    with_tail.extend_from_slice(&[0xAA, 0xBB]);
    let (back, n) = Vec::<(u16, Option<i32>)>::decode_with_len(&with_tail).unwrap();
    assert_eq!(back, v);
    assert_eq!(n, bytes.len());

    let nested: Vec<Vec<u8>> = vec![vec![], vec![1, 2, 3], vec![4]];
    let bytes = nested.encode().unwrap();
    assert_eq!(bytes, vec![3, 0, 0, 0, 3, 0, 1, 2, 3, 1, 0, 4]);
    assert_eq!(Vec::<Vec<u8>>::decode(&bytes).unwrap(), nested);

    let t = (1u8, 2u16, true, [9u8; 3]);
    let bytes = t.encode().unwrap();
    assert_eq!(bytes, vec![1, 2, 0, 1, 9, 9, 9]);
    assert_eq!(<(u8, u16, bool, [u8; 3])>::decode_with_len(&bytes).unwrap(), (t, 7));

    let b = Box::new(0x1234u16);
    assert_eq!(b.encode().unwrap(), vec![0x34, 0x12]);
    assert_eq!(*Box::<u16>::decode(&[0x34, 0x12]).unwrap(), 0x1234);
}

#[test]
fn fast_size_matches_size_for_uniform_entries() {
    let v = vec![1u32, 2, 3];
    assert_eq!(v.fast_size(), 14);
    assert_eq!(v.size().unwrap(), 14);
    let pairs = vec![(1u8, 2u64), (3, 4)];
    assert_eq!(pairs.fast_size(), pairs.size().unwrap());
    assert_eq!(pairs.fast_size(), 2 + 2 * 9);
    let ragged: Vec<Vec<u8>> = vec![vec![1], vec![1, 2, 3]];
    assert_eq!(ragged.size().unwrap(), 2 + 3 + 5);
    assert_eq!(ragged.fast_size(), 2 + 2 * 3);
}

#[test]
fn reader_decodes_values_one_after_another() {
    let mut buf = Vec::new();
    7u32.encode_into(&mut buf).unwrap();
    true.encode_into(&mut buf).unwrap();
    vec![1u16, 2].encode_into(&mut buf).unwrap();
    let mut reader = ByteReader::new(&buf);
    assert_eq!(u32::decode_from(&mut reader).unwrap(), 7);
    assert_eq!(bool::decode_with_len_from(&mut reader).unwrap(), (true, 1));
    assert_eq!(Vec::<u16>::decode_from(&mut reader).unwrap(), vec![1, 2]);
    assert_eq!(reader.remaining(), 0);
    assert_eq!(u8::decode_from(&mut reader), Err(CodecError::UnexpectedEof));
}

#[test]
fn byte_strings_take_the_bulk_path() {
    let data = vec![10u8, 20, 30];
    let bulk = encode_bytes(&data).unwrap();
    assert_eq!(bulk, vec![3, 0, 10, 20, 30]);
    assert_eq!(bulk, data.encode().unwrap());
    assert_eq!(decode_bytes(&[3, 0, 10, 20, 30, 99]).unwrap(), data);
    let mut reader = ByteReader::new(&bulk);
    assert_eq!(bytecodec::bytes::decode_bytes_from(&mut reader).unwrap(), (data, 5));
}

#[test]
fn failed_encodes_leave_the_buffer_as_it_was() {
    let mut out = vec![9u8, 8];
    assert_eq!(vec![0u32; MAX_LEN + 1].encode_into(&mut out), Err(CodecError::InvalidInput));
    assert_eq!(out, vec![9, 8]);
    let nested = vec![vec![1u8], vec![0u8; MAX_LEN + 1]];
    assert_eq!(nested.encode_into(&mut out), Err(CodecError::InvalidInput));
    assert_eq!(out, vec![9, 8]);
    let pair = (7u16, vec![0u8; MAX_LEN + 1]);
    assert_eq!(pair.encode_into(&mut out), Err(CodecError::InvalidInput));
    assert_eq!(out, vec![9, 8]);
    assert_eq!(Some(vec![0u8; MAX_LEN + 1]).encode_into(&mut out), Err(CodecError::InvalidInput));
    assert_eq!(out, vec![9, 8]);
}

#[test]
fn cut_short_entries_fail_with_end_of_data() {
    assert_eq!(Vec::<u32>::decode(&[1, 0, 1, 2, 3]), Err(CodecError::UnexpectedEof));
    assert_eq!(Vec::<Vec<u8>>::decode(&[1, 0, 4, 0, 1]), Err(CodecError::UnexpectedEof));
    assert_eq!(<(u8, u16)>::decode(&[1, 2]), Err(CodecError::UnexpectedEof));
    assert_eq!(Vec::<bool>::decode_with_len(&[2, 0, 1, 3]), Err(CodecError::InvalidData));
}

#[test]
fn boxes_fail_as_their_content_does() {
    assert_eq!(Box::<bool>::decode(&[2]), Err(CodecError::InvalidData));
    assert_eq!(Box::<u32>::decode(&[2]), Err(CodecError::UnexpectedEof));
    assert_eq!(Box::<bool>::decode_with_len(&[1]).unwrap(), (Box::new(true), 1));
    assert_eq!(Box::new(5u16).size(), 5u16.size());
}

#[test]
fn fast_size_is_the_first_entry_estimate_times_the_count() {
    let v: Vec<Vec<u8>> = vec![vec![1, 2], vec![]];
    assert_eq!(v.fast_size(), 2 + 2 * 4);
    assert_eq!(Some(vec![1u8, 2]).fast_size(), 5);
}
