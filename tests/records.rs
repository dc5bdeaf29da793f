use std::collections::BTreeMap;

use ed25519_dalek::{Keypair, Signer};
use rand::rngs::OsRng;

use bytecodec::date::{NaiveDate, NaiveDateTime, NaiveTime, UtcDate, UtcDateTime};
use bytecodec::keys::{PublicKey, Signature, X25519PublicKey, PUBLIC_KEY_LENGTH, SIGNATURE_LENGTH};
use bytecodec::net::{IpAddr, Ipv4Addr, Ipv6Addr, SocketAddr, SocketAddrV4, SocketAddrV6};
use bytecodec::pow::Proofs;
use bytecodec::sparse::SparseProof;
use bytecodec::{ByteReader, CodecError, Decode, Encode, MAX_LEN};

fn hash(seed: u8) -> [u8; 32] {
    let mut h = [0u8; 32];
    for (i, b) in h.iter_mut().enumerate() {
        *b = seed.wrapping_mul(31).wrapping_add(i as u8);
    }
    h
}

#[test]
fn proofs() {
    let nodes: BTreeMap<usize, [u8; 32]> = (0..12usize).map(|i| (i * 3 + 1, hash(i as u8))).collect();
    let proofs = Proofs::new(b"foobar".to_vec(), 8, 64, nodes);
    assert_eq!(proofs.fast_size(), "foobar".len() + 8 + proofs.nodes.len() * 40);

    let encoded = proofs.encode().unwrap();
    let decoded = Proofs::decode(&encoded).unwrap();
    assert_eq!(decoded.description, b"foobar".to_vec());
    assert_eq!(decoded.nodes, proofs.nodes);
    assert_eq!(decoded.levels, 8);
    assert_eq!(decoded.proofs, 64);
}

#[test]
fn proofs_layout_and_count_limits() {
    let p = Proofs::new(b"ab".to_vec(), 3, 4, BTreeMap::from([(5, [1u8; 32])]));
    let bytes = p.encode().unwrap();
    assert_eq!(&bytes[..10], &[2, 0, b'a', b'b', 3, 0, 4, 0, 1, 0]);
    assert_eq!(&bytes[10..18], &[5, 0, 0, 0, 0, 0, 0, 0]);
    assert_eq!(&bytes[18..], &[1u8; 32]);
    assert_eq!(bytes.len(), p.size().unwrap());

    let too_many_levels = Proofs::new(vec![], MAX_LEN + 1, 0, BTreeMap::new());
    assert_eq!(too_many_levels.encode(), Err(CodecError::InvalidInput));
    let too_many_proofs = Proofs::new(vec![], 0, MAX_LEN + 1, BTreeMap::new());
    assert_eq!(too_many_proofs.encode(), Err(CodecError::InvalidInput));
    let at_cap = Proofs::new(vec![], MAX_LEN, MAX_LEN, BTreeMap::new());
    assert!(at_cap.encode().is_ok());
}

#[test]
fn sparse_proof() {
    let proof = SparseProof { bytes: (0..97u8).map(|b| b ^ 0x5A).collect() };

    let encoded1 = proof.bytes.clone();
    assert_eq!(proof.fast_size(), encoded1.len() + 2);

    let encoded2 = proof.encode().unwrap();
    assert_eq!(encoded1[..], encoded2[2..]);

    let decoded1 = SparseProof::decode(&encoded2).unwrap();
    let decoded2 = SparseProof::decode_from(&mut ByteReader::new(encoded2.as_slice())).unwrap();
    assert_eq!(decoded1.bytes, decoded2.bytes);
    assert_eq!(decoded1.bytes, proof.bytes);
}

#[test]
fn ip_addresses_carry_a_family_tag() {
    let v4 = IpAddr::V4(Ipv4Addr { octets: [127, 0, 0, 1] });
    assert_eq!(v4.encode().unwrap(), vec![4, 127, 0, 0, 1]);
    assert_eq!(v4.fast_size(), 5);
    assert_eq!(IpAddr::decode_with_len(&[4, 127, 0, 0, 1]).unwrap(), (v4, 5));
    let v6 = IpAddr::V6(Ipv6Addr { octets: [0xFE; 16] });
    let bytes = v6.encode().unwrap();
    assert_eq!(bytes[0], 6);
    assert_eq!(bytes.len(), 17);
    assert_eq!(IpAddr::decode(&bytes).unwrap(), v6);
    assert_eq!(IpAddr::decode(&[5, 1, 2, 3, 4]), Err(CodecError::InvalidData));
    assert_eq!(IpAddr::decode(&[4, 1, 2]), Err(CodecError::UnexpectedEof));
}

#[test]
fn socket_addresses_round_trip() {
    let a = SocketAddr::V4(SocketAddrV4 { ip: Ipv4Addr { octets: [10, 0, 0, 2] }, port: 8080 });
    assert_eq!(a.encode().unwrap(), vec![4, 10, 0, 0, 2, 0x90, 0x1F]);
    assert_eq!(SocketAddr::decode(&a.encode().unwrap()).unwrap(), a);
    let b = SocketAddr::V6(SocketAddrV6 {
        ip: Ipv6Addr { octets: [1; 16] },
        port: 443,
        flowinfo: 7,
        scope_id: 9,
    });
    let bytes = b.encode().unwrap();
    assert_eq!(bytes.len(), 1 + 16 + 2 + 4 + 4);
    assert_eq!(b.fast_size(), bytes.len());
    assert_eq!(bytes[0], 6);
    assert_eq!(SocketAddr::decode(&bytes).unwrap(), b);
    assert_eq!(SocketAddr::decode(&[0]), Err(CodecError::InvalidData));
}

#[test]
fn dates_and_times() {
    let dt = NaiveDateTime {
        date: NaiveDate { days_from_ce: 738_000 },
        time: NaiveTime { secs_from_midnight: 3_661 },
    };
    let bytes = dt.encode().unwrap();
    assert_eq!(bytes, vec![0xD0, 0x42, 0x0B, 0x00, 0x4D, 0x0E, 0x00, 0x00]);
    assert_eq!(NaiveDateTime::decode(&bytes).unwrap(), dt);
    assert_eq!(NaiveTime::decode(&[0x80, 0x51, 0x01, 0x00]), Err(CodecError::InvalidData));
    assert_eq!(NaiveTime::decode(&[0x7F, 0x51, 0x01, 0x00]).unwrap().secs_from_midnight, 86_399);
    assert_eq!(
        NaiveTime { secs_from_midnight: 86_400 }.encode(),
        Err(CodecError::InvalidInput)
    );
    assert_eq!(NaiveDate::decode(&[0xFF, 0xFF, 0xFF, 0xFF]).unwrap().days_from_ce, -1);
    assert_eq!(NaiveDate::decode(&i32::MAX.to_le_bytes()), Err(CodecError::InvalidData));
    assert_eq!(NaiveDate { days_from_ce: i32::MIN }.encode(), Err(CodecError::InvalidInput));
    let last_day = NaiveDate { days_from_ce: 95_000_000 };
    assert_eq!(NaiveDate::decode(&last_day.encode().unwrap()).unwrap(), last_day);
}

#[test]
fn public_key() {
    let keypair = Keypair::generate(&mut OsRng);
    let pubkey = PublicKey { bytes: keypair.public.to_bytes() };
    assert_eq!(pubkey.fast_size(), PUBLIC_KEY_LENGTH);

    let encoded = pubkey.encode().unwrap();
    assert_eq!(encoded, keypair.public.as_bytes());

    let decoded = PublicKey::decode(&encoded).unwrap();
    assert_eq!(decoded, pubkey);
}

#[test]
fn signature() {
    let keypair = Keypair::generate(&mut OsRng);
    let msg = [0, 1, 2, 3, 4, 5, 6, 7];
    let signature = Signature { bytes: keypair.sign(&msg).to_bytes() };
    assert_eq!(signature.fast_size(), SIGNATURE_LENGTH);

    let encoded = signature.encode().unwrap();
    assert_eq!(encoded, keypair.sign(&msg).to_bytes().to_vec());

    let decoded = Signature::decode(&encoded).unwrap();
    assert_eq!(decoded, signature);
}

#[test]
fn keys_off_the_curve_are_rejected() {
    let mut bytes = [0u8; 32];
    let mut b: u8 = 0;
    loop {
        bytes[0] = b;
        if ed25519_dalek::PublicKey::from_bytes(&bytes).is_err() {
            break;
        }
        b += 1;
    }
    assert_eq!(PublicKey::decode(&bytes), Err(CodecError::InvalidData));
    assert_eq!(PublicKey { bytes }.encode(), Err(CodecError::InvalidInput));
    assert_eq!(PublicKey::decode(&bytes[..31]), Err(CodecError::UnexpectedEof));
}

#[test]
fn signatures_with_high_bits_are_rejected() {
    let mut bytes = [7u8; 64];
    bytes[63] = 0x20;
    assert_eq!(Signature::decode(&bytes), Err(CodecError::InvalidData));
    assert_eq!(Signature { bytes }.encode(), Err(CodecError::InvalidInput));
    bytes[63] = 0x1F;
    assert_eq!(Signature::decode(&bytes).unwrap(), Signature { bytes });
    assert_eq!(Signature::decode(&bytes[..63]), Err(CodecError::UnexpectedEof));
}

#[test]
fn x25519_keys_are_any_32_bytes() {
    let key = X25519PublicKey { bytes: [0xFF; 32] };
    assert_eq!(key.fast_size(), 32);
    assert_eq!(key.encode().unwrap(), vec![0xFF; 32]);
    assert_eq!(X25519PublicKey::decode(&[0xFF; 40]).unwrap(), key);
    assert_eq!(X25519PublicKey::decode(&[0; 31]), Err(CodecError::UnexpectedEof));
}

#[test]
fn utc_values_have_the_naive_layout() {
    let naive = NaiveDateTime {
        date: NaiveDate { days_from_ce: 1 },
        time: NaiveTime { secs_from_midnight: 0 },
    };
    let utc = UtcDateTime { naive };
    assert_eq!(utc.encode().unwrap(), naive.encode().unwrap());
    assert_eq!(utc.encode().unwrap(), vec![1, 0, 0, 0, 0, 0, 0, 0]);
    assert_eq!(UtcDateTime::decode(&utc.encode().unwrap()).unwrap(), utc);
    let day = UtcDate { naive: NaiveDate { days_from_ce: 738_000 } };
    assert_eq!(day.encode().unwrap(), vec![0xD0, 0x42, 0x0B, 0x00]);
    assert_eq!(UtcDate::decode(&[0xD0, 0x42, 0x0B, 0x00]).unwrap(), day);
}
