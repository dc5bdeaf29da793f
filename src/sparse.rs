//! A sparse Merkle proof, carried as its serialized bytes in a byte string.
use vstd::prelude::*;
use crate::bytes::{byte_string_wire, decode_bytes_from, encode_bytes_into};
use crate::collections::len_prefix;
use crate::le::{
    le_bytes, lemma_le_bytes_injective, lemma_le_bytes_len, lemma_le_value_of_bytes, pow256,
};
use crate::reader::ByteReader;
use crate::{CodecError, Decode, Encode, MAX_LEN};

verus! {

/// A sparse Merkle proof's bytes.
#[derive(Debug)]
pub struct SparseProof {
    pub bytes: Vec<u8>,
}

impl DeepView for SparseProof {
    type V = Seq<u8>;

    open spec fn deep_view(&self) -> Seq<u8> {
        self.bytes@
    }
}

/// The proof's bytes as a byte string: a two-byte length, then the bytes.
impl Encode for SparseProof {
    open spec fn fast_len(&self) -> nat {
        if self.bytes@.len() > MAX_LEN {
            0
        } else {
            self.bytes@.len() + 2
        }
    }

    open spec fn encodable(&self) -> bool {
        self.bytes@.len() <= MAX_LEN
    }

    open spec fn wire(&self) -> Seq<u8> {
        byte_string_wire(self.bytes@)
    }

    open spec fn fast_exact(&self) -> bool {
        true
    }

    fn fast_size(&self) -> (r: usize) {
        let len = self.bytes.len();
        proof {
            lemma_le_bytes_len(len as nat, 2);
        }
        if len > MAX_LEN {
            0
        } else {
            len + 2
        }
    }

    fn size(&self) -> (r: Result<usize, CodecError>) {
        let len = self.bytes.len();
        proof {
            lemma_le_bytes_len(len as nat, 2);
        }
        if len > MAX_LEN {
            Err(CodecError::InvalidInput)
        } else {
            Ok(len + 2)
        }
    }

    fn encode_into(&self, out: &mut Vec<u8>) -> (r: Result<(), CodecError>) {
        encode_bytes_into(self.bytes.as_slice(), out)
    }
}

impl Decode for SparseProof {
    open spec fn decode_error(input: Seq<u8>) -> CodecError {
        CodecError::UnexpectedEof
    }

    fn decode_with_len_from(reader: &mut ByteReader) -> (r: Result<(Self, usize), CodecError>) {
        let ghost start = reader@;
        match decode_bytes_from(reader) {
            Ok((bytes, n)) => {
                proof {
                    lemma_le_bytes_len(bytes@.len(), 2);
                }
                Ok((SparseProof { bytes }, n))
            },
            Err(e) => {
                proof {
                    assert forall|v: SparseProof, rest: Seq<u8>| #[trigger] v.encodable() && start
                        == #[trigger] (v.wire() + rest) implies false by {
                        let len = v.bytes@.len();
                        lemma_le_bytes_len(len, 2);
                        reveal_with_fuel(pow256, 3);
                        lemma_le_value_of_bytes(len, 2);
                        assert(start.take(2) =~= le_bytes(len, 2));
                    }
                }
                Err(e)
            },
        }
    }

    fn never_empty() -> (r: bool) {
        proof {
            assert forall|v: Self| #[trigger] v.encodable() implies v.wire().len() >= 1 by {
                lemma_le_bytes_len(v.bytes@.len(), 2);
            }
        }
        true
    }

    proof fn lemma_truncated(v: Self, k: nat) {

    }

    proof fn lemma_prefix_unique(a: Self, b: Self, ra: Seq<u8>, rb: Seq<u8>) {
        let la = a.bytes@.len();
        let lb = b.bytes@.len();
        lemma_le_bytes_len(la, 2);
        lemma_le_bytes_len(lb, 2);
        assert(len_prefix(la) =~= (a.wire() + ra).take(2));
        assert(len_prefix(lb) =~= (b.wire() + rb).take(2));
        reveal_with_fuel(pow256, 3);
        lemma_le_bytes_injective(la, lb, 2);
        assert(a.bytes@ =~= (a.wire() + ra).subrange(2, 2 + la as int));
        assert(b.bytes@ =~= (b.wire() + rb).subrange(2, 2 + lb as int));
    }
}

} // verus!
