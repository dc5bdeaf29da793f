//! Ed25519 public keys and signatures, and X25519 public keys, which travel as
//! their fixed-length bytes.
use vstd::prelude::*;
use crate::reader::ByteReader;
use crate::{CodecError, Decode, Encode};

verus! {

/// The length of a public key in bytes.
pub const PUBLIC_KEY_LENGTH: usize = 32;

/// The length of a signature in bytes.
pub const SIGNATURE_LENGTH: usize = 64;

/// 32 bytes are the compressed form of a point of the ed25519 curve.
pub uninterp spec fn ed25519_point(bytes: Seq<u8>) -> bool;

/// Relies on `ed25519_dalek::PublicKey::from_bytes`: on 32 bytes it succeeds
/// exactly when they decompress to a curve point, which depends on the bytes alone.
#[verifier::external_body]
fn is_ed25519_point(bytes: &[u8; 32]) -> (r: bool)
    ensures
        r == ed25519_point(bytes@),
{
    ed25519_dalek::PublicKey::from_bytes(bytes).is_ok()
}

/// Relies on `ed25519_dalek::Signature::from_bytes`: on 64 bytes it succeeds
/// exactly when the three high bits of the last byte are clear.
#[verifier::external_body]
fn is_reduced_signature(bytes: &[u8; 64]) -> (r: bool)
    ensures
        r == (bytes@[63] < 32),
{
    ed25519_dalek::Signature::from_bytes(bytes).is_ok()
}

/// An ed25519 public key, as its 32 bytes.
#[derive(Clone, Copy, Debug, PartialEq, Eq)]
pub struct PublicKey {
    pub bytes: [u8; 32],
}

/// An X25519 public key, as its 32 bytes: every 32 bytes are one.
#[derive(Clone, Copy, Debug, PartialEq, Eq)]
pub struct X25519PublicKey {
    pub bytes: [u8; 32],
}

/// An ed25519 signature, as its 64 bytes.
#[derive(Clone, Copy, Debug, PartialEq, Eq)]
pub struct Signature {
    pub bytes: [u8; 64],
}

impl DeepView for PublicKey {
    type V = <[u8; 32] as DeepView>::V;

    open spec fn deep_view(&self) -> Self::V {
        self.bytes.deep_view()
    }
}

/// The bytes of its field; only a valid value can be written.
impl Encode for PublicKey {
    open spec fn fast_len(&self) -> nat {
        self.bytes.fast_len()
    }

    open spec fn encodable(&self) -> bool {
        ed25519_point(self.bytes@)
    }

    open spec fn wire(&self) -> Seq<u8> {
        self.bytes.wire()
    }

    open spec fn fast_exact(&self) -> bool {
        true
    }

    fn fast_size(&self) -> (r: usize) {
        self.bytes.fast_size()
    }

    fn size(&self) -> (r: Result<usize, CodecError>) {
        if !is_ed25519_point(&self.bytes) {
            return Err(CodecError::InvalidInput);
        }
        self.bytes.size()
    }

    fn encode_into(&self, out: &mut Vec<u8>) -> (r: Result<(), CodecError>) {
        if !is_ed25519_point(&self.bytes) {
            return Err(CodecError::InvalidInput);
        }
        self.bytes.encode_into(out)
    }
}

impl Decode for PublicKey {
    open spec fn decode_error(input: Seq<u8>) -> CodecError {
        if input.len() < 32 {
            CodecError::UnexpectedEof
        } else {
            CodecError::InvalidData
        }
    }

    /// Bytes that are not a curve point are `InvalidData`.
    fn decode_with_len_from(reader: &mut ByteReader) -> (r: Result<(Self, usize), CodecError>) {
        let ghost start = reader@;
        match <[u8; 32]>::decode_with_len_from(reader) {
            Ok((x, n)) => {
                if !is_ed25519_point(&x) {
                    proof {
                        assert forall|v: PublicKey, rest: Seq<u8>| #[trigger] v.encodable() && start
                            == #[trigger] (v.wire() + rest) implies false by {
                            <[u8; 32]>::lemma_prefix_unique(x, v.bytes, reader@, rest);
                        }
                    }
                    return Err(CodecError::InvalidData);
                }
                Ok((PublicKey { bytes: x }, n))
            },
            Err(e) => {
                proof {
                    assert forall|v: PublicKey, rest: Seq<u8>| #[trigger] v.encodable() && start
                        == #[trigger] (v.wire() + rest) implies false by {
                        assert(v.bytes.encodable());
                    }
                }
                Err(e)
            },
        }
    }

    fn never_empty() -> (r: bool) {
        proof {
            assert forall|v: Self| #[trigger] v.encodable() implies v.wire().len() >= 1 by {
                assert(v.bytes@.len() == 32);
            }
        }
        true
    }

    proof fn lemma_truncated(v: Self, k: nat) {

    }

    proof fn lemma_prefix_unique(a: Self, b: Self, ra: Seq<u8>, rb: Seq<u8>) {
        <[u8; 32]>::lemma_prefix_unique(a.bytes, b.bytes, ra, rb);
    }
}

impl DeepView for Signature {
    type V = <[u8; 64] as DeepView>::V;

    open spec fn deep_view(&self) -> Self::V {
        self.bytes.deep_view()
    }
}

/// The bytes of its field; only a valid value can be written.
impl Encode for Signature {
    open spec fn fast_len(&self) -> nat {
        self.bytes.fast_len()
    }

    open spec fn encodable(&self) -> bool {
        self.bytes@[63] < 32
    }

    open spec fn wire(&self) -> Seq<u8> {
        self.bytes.wire()
    }

    open spec fn fast_exact(&self) -> bool {
        true
    }

    fn fast_size(&self) -> (r: usize) {
        self.bytes.fast_size()
    }

    fn size(&self) -> (r: Result<usize, CodecError>) {
        if !is_reduced_signature(&self.bytes) {
            return Err(CodecError::InvalidInput);
        }
        self.bytes.size()
    }

    fn encode_into(&self, out: &mut Vec<u8>) -> (r: Result<(), CodecError>) {
        if !is_reduced_signature(&self.bytes) {
            return Err(CodecError::InvalidInput);
        }
        self.bytes.encode_into(out)
    }
}

impl Decode for Signature {
    open spec fn decode_error(input: Seq<u8>) -> CodecError {
        if input.len() < 64 {
            CodecError::UnexpectedEof
        } else {
            CodecError::InvalidData
        }
    }

    /// A last byte with any of its three high bits set is `InvalidData`.
    fn decode_with_len_from(reader: &mut ByteReader) -> (r: Result<(Self, usize), CodecError>) {
        let ghost start = reader@;
        match <[u8; 64]>::decode_with_len_from(reader) {
            Ok((x, n)) => {
                if !is_reduced_signature(&x) {
                    proof {
                        assert forall|v: Signature, rest: Seq<u8>| #[trigger] v.encodable() && start
                            == #[trigger] (v.wire() + rest) implies false by {
                            <[u8; 64]>::lemma_prefix_unique(x, v.bytes, reader@, rest);
                        }
                    }
                    return Err(CodecError::InvalidData);
                }
                Ok((Signature { bytes: x }, n))
            },
            Err(e) => {
                proof {
                    assert forall|v: Signature, rest: Seq<u8>| #[trigger] v.encodable() && start
                        == #[trigger] (v.wire() + rest) implies false by {
                        assert(v.bytes.encodable());
                    }
                }
                Err(e)
            },
        }
    }

    fn never_empty() -> (r: bool) {
        proof {
            assert forall|v: Self| #[trigger] v.encodable() implies v.wire().len() >= 1 by {
                assert(v.bytes@.len() == 64);
            }
        }
        true
    }

    proof fn lemma_truncated(v: Self, k: nat) {

    }

    proof fn lemma_prefix_unique(a: Self, b: Self, ra: Seq<u8>, rb: Seq<u8>) {
        <[u8; 64]>::lemma_prefix_unique(a.bytes, b.bytes, ra, rb);
    }
}

impl DeepView for X25519PublicKey {
    type V = <[u8; 32] as DeepView>::V;

    open spec fn deep_view(&self) -> Self::V {
        self.bytes.deep_view()
    }
}

/// Exactly the bytes of its one field.
impl Encode for X25519PublicKey {
    open spec fn fast_len(&self) -> nat {
        self.bytes.fast_len()
    }

    open spec fn encodable(&self) -> bool {
        self.bytes.encodable()
    }

    open spec fn wire(&self) -> Seq<u8> {
        self.bytes.wire()
    }

    open spec fn fast_exact(&self) -> bool {
        self.bytes.fast_exact()
    }

    fn fast_size(&self) -> (r: usize) {
        self.bytes.fast_size()
    }

    fn size(&self) -> (r: Result<usize, CodecError>) {
        self.bytes.size()
    }

    fn encode_into(&self, out: &mut Vec<u8>) -> (r: Result<(), CodecError>) {
        self.bytes.encode_into(out)
    }
}

impl Decode for X25519PublicKey {
    open spec fn decode_error(input: Seq<u8>) -> CodecError {
        <[u8; 32]>::decode_error(input)
    }

    fn decode_with_len_from(reader: &mut ByteReader) -> (r: Result<(Self, usize), CodecError>) {
        match <[u8; 32]>::decode_with_len_from(reader) {
            Ok((x, n)) => Ok((X25519PublicKey { bytes: x }, n)),
            Err(e) => {
                proof {
                    assert forall|v: X25519PublicKey, rest: Seq<u8>| #[trigger] v.encodable() && old(reader)@
                        == #[trigger] (v.wire() + rest) implies false by {
                        assert(v.bytes.encodable());
                    }
                }
                Err(e)
            },
        }
    }

    fn never_empty() -> (r: bool) {
        let r = <[u8; 32]>::never_empty();
        proof {
            if r {
                assert forall|v: Self| #[trigger] v.encodable() implies v.wire().len() >= 1 by {
                    assert(v.bytes.encodable());
                }
            } else {
                let x = choose|x: [u8; 32]| #[trigger] x.encodable() && !(x.wire().len() >= 1);
                let w = X25519PublicKey { bytes: x };
                assert(w.encodable() && !(w.wire().len() >= 1));
            }
        }
        r
    }

    proof fn lemma_truncated(v: Self, k: nat) {
        <[u8; 32]>::lemma_truncated(v.bytes, k);
    }

    proof fn lemma_prefix_unique(a: Self, b: Self, ra: Seq<u8>, rb: Seq<u8>) {
        <[u8; 32]>::lemma_prefix_unique(a.bytes, b.bytes, ra, rb);
    }
}

} // verus!
