//! Fixed-width integers, booleans and fixed-length byte arrays.
use vstd::prelude::*;
use crate::le::{le_bytes, lemma_le_bytes_len, lemma_le_bytes_injective, write_le, pow256};
use crate::reader::ByteReader;
use crate::{CodecError, Decode, Encode};

verus! {

impl Encode for u8 {
    open spec fn fast_len(&self) -> nat {
        1
    }

    open spec fn encodable(&self) -> bool {
        true
    }

    open spec fn wire(&self) -> Seq<u8> {
        le_bytes(*self as nat, 1)
    }

    open spec fn fast_exact(&self) -> bool {
        true
    }

    fn fast_size(&self) -> (r: usize) {
        proof {
            lemma_le_bytes_len(*self as nat, 1);
        }
        1
    }

    fn size(&self) -> (r: Result<usize, CodecError>) {
        proof {
            lemma_le_bytes_len(*self as nat, 1);
        }
        Ok(1)
    }

    fn encode_into(&self, out: &mut Vec<u8>) -> (r: Result<(), CodecError>) {
        write_le(out, *self as u128, 1);
        Ok(())
    }
}

impl Decode for u8 {
    open spec fn decode_error(input: Seq<u8>) -> CodecError {
        CodecError::UnexpectedEof
    }

    /// Fewer than 1 byte left is `UnexpectedEof`, the only failure.
    fn decode_with_len_from(reader: &mut ByteReader) -> (r: Result<(Self, usize), CodecError>)
        ensures
            r is Err <==> old(reader)@.len() < 1,
            r matches Err(e) ==> e == CodecError::UnexpectedEof,
    {
        match reader.read_le(1) {
            Ok(v) => {
                let x: u8 = v as u8;
                proof {
                    reveal_with_fuel(pow256, 2);
                    lemma_le_bytes_len(v as nat, 1);
                    assert(old(reader)@ =~= x.wire() + reader@);
                }
                Ok((x, 1))
            },
            Err(e) => {
                proof {
                    assert forall|x: u8, rest: Seq<u8>| #[trigger] x.encodable() && old(reader)@ == #[trigger] (x.wire() + rest) implies false by {
                        lemma_le_bytes_len(x as nat, 1);
                    }
                }
                Err(e)
            },
        }
    }

    fn never_empty() -> (r: bool) {
        proof {
            assert forall|v: Self| #[trigger] v.encodable() implies v.wire().len() >= 1 by {
                lemma_le_bytes_len(v as nat, 1);
            }
        }
        true
    }

    proof fn lemma_truncated(v: Self, k: nat) {

    }

    proof fn lemma_prefix_unique(a: Self, b: Self, ra: Seq<u8>, rb: Seq<u8>) {
        lemma_le_bytes_len(a as nat, 1);
        lemma_le_bytes_len(b as nat, 1);
        assert(a.wire() =~= (a.wire() + ra).take(1));
        assert(b.wire() =~= (b.wire() + rb).take(1));
        reveal_with_fuel(pow256, 2);
        lemma_le_bytes_injective(a as nat, b as nat, 1);
    }
}


impl Encode for u16 {
    open spec fn fast_len(&self) -> nat {
        2
    }

    open spec fn encodable(&self) -> bool {
        true
    }

    open spec fn wire(&self) -> Seq<u8> {
        le_bytes(*self as nat, 2)
    }

    open spec fn fast_exact(&self) -> bool {
        true
    }

    fn fast_size(&self) -> (r: usize) {
        proof {
            lemma_le_bytes_len(*self as nat, 2);
        }
        2
    }

    fn size(&self) -> (r: Result<usize, CodecError>) {
        proof {
            lemma_le_bytes_len(*self as nat, 2);
        }
        Ok(2)
    }

    fn encode_into(&self, out: &mut Vec<u8>) -> (r: Result<(), CodecError>) {
        write_le(out, *self as u128, 2);
        Ok(())
    }
}

impl Decode for u16 {
    open spec fn decode_error(input: Seq<u8>) -> CodecError {
        CodecError::UnexpectedEof
    }

    /// Fewer than 2 bytes left is `UnexpectedEof`, the only failure.
    fn decode_with_len_from(reader: &mut ByteReader) -> (r: Result<(Self, usize), CodecError>)
        ensures
            r is Err <==> old(reader)@.len() < 2,
            r matches Err(e) ==> e == CodecError::UnexpectedEof,
    {
        match reader.read_le(2) {
            Ok(v) => {
                let x: u16 = v as u16;
                proof {
                    reveal_with_fuel(pow256, 3);
                    lemma_le_bytes_len(v as nat, 2);
                    assert(old(reader)@ =~= x.wire() + reader@);
                }
                Ok((x, 2))
            },
            Err(e) => {
                proof {
                    assert forall|x: u16, rest: Seq<u8>| #[trigger] x.encodable() && old(reader)@ == #[trigger] (x.wire() + rest) implies false by {
                        lemma_le_bytes_len(x as nat, 2);
                    }
                }
                Err(e)
            },
        }
    }

    fn never_empty() -> (r: bool) {
        proof {
            assert forall|v: Self| #[trigger] v.encodable() implies v.wire().len() >= 1 by {
                lemma_le_bytes_len(v as nat, 2);
            }
        }
        true
    }

    proof fn lemma_truncated(v: Self, k: nat) {

    }

    proof fn lemma_prefix_unique(a: Self, b: Self, ra: Seq<u8>, rb: Seq<u8>) {
        lemma_le_bytes_len(a as nat, 2);
        lemma_le_bytes_len(b as nat, 2);
        assert(a.wire() =~= (a.wire() + ra).take(2));
        assert(b.wire() =~= (b.wire() + rb).take(2));
        reveal_with_fuel(pow256, 3);
        lemma_le_bytes_injective(a as nat, b as nat, 2);
    }
}


impl Encode for u32 {
    open spec fn fast_len(&self) -> nat {
        4
    }

    open spec fn encodable(&self) -> bool {
        true
    }

    open spec fn wire(&self) -> Seq<u8> {
        le_bytes(*self as nat, 4)
    }

    open spec fn fast_exact(&self) -> bool {
        true
    }

    fn fast_size(&self) -> (r: usize) {
        proof {
            lemma_le_bytes_len(*self as nat, 4);
        }
        4
    }

    fn size(&self) -> (r: Result<usize, CodecError>) {
        proof {
            lemma_le_bytes_len(*self as nat, 4);
        }
        Ok(4)
    }

    fn encode_into(&self, out: &mut Vec<u8>) -> (r: Result<(), CodecError>) {
        write_le(out, *self as u128, 4);
        Ok(())
    }
}

impl Decode for u32 {
    open spec fn decode_error(input: Seq<u8>) -> CodecError {
        CodecError::UnexpectedEof
    }

    /// Fewer than 4 bytes left is `UnexpectedEof`, the only failure.
    fn decode_with_len_from(reader: &mut ByteReader) -> (r: Result<(Self, usize), CodecError>)
        ensures
            r is Err <==> old(reader)@.len() < 4,
            r matches Err(e) ==> e == CodecError::UnexpectedEof,
    {
        match reader.read_le(4) {
            Ok(v) => {
                let x: u32 = v as u32;
                proof {
                    reveal_with_fuel(pow256, 5);
                    lemma_le_bytes_len(v as nat, 4);
                    assert(old(reader)@ =~= x.wire() + reader@);
                }
                Ok((x, 4))
            },
            Err(e) => {
                proof {
                    assert forall|x: u32, rest: Seq<u8>| #[trigger] x.encodable() && old(reader)@ == #[trigger] (x.wire() + rest) implies false by {
                        lemma_le_bytes_len(x as nat, 4);
                    }
                }
                Err(e)
            },
        }
    }

    fn never_empty() -> (r: bool) {
        proof {
            assert forall|v: Self| #[trigger] v.encodable() implies v.wire().len() >= 1 by {
                lemma_le_bytes_len(v as nat, 4);
            }
        }
        true
    }

    proof fn lemma_truncated(v: Self, k: nat) {

    }

    proof fn lemma_prefix_unique(a: Self, b: Self, ra: Seq<u8>, rb: Seq<u8>) {
        lemma_le_bytes_len(a as nat, 4);
        lemma_le_bytes_len(b as nat, 4);
        assert(a.wire() =~= (a.wire() + ra).take(4));
        assert(b.wire() =~= (b.wire() + rb).take(4));
        reveal_with_fuel(pow256, 5);
        lemma_le_bytes_injective(a as nat, b as nat, 4);
    }
}


impl Encode for u64 {
    open spec fn fast_len(&self) -> nat {
        8
    }

    open spec fn encodable(&self) -> bool {
        true
    }

    open spec fn wire(&self) -> Seq<u8> {
        le_bytes(*self as nat, 8)
    }

    open spec fn fast_exact(&self) -> bool {
        true
    }

    fn fast_size(&self) -> (r: usize) {
        proof {
            lemma_le_bytes_len(*self as nat, 8);
        }
        8
    }

    fn size(&self) -> (r: Result<usize, CodecError>) {
        proof {
            lemma_le_bytes_len(*self as nat, 8);
        }
        Ok(8)
    }

    fn encode_into(&self, out: &mut Vec<u8>) -> (r: Result<(), CodecError>) {
        write_le(out, *self as u128, 8);
        Ok(())
    }
}

impl Decode for u64 {
    open spec fn decode_error(input: Seq<u8>) -> CodecError {
        CodecError::UnexpectedEof
    }

    /// Fewer than 8 bytes left is `UnexpectedEof`, the only failure.
    fn decode_with_len_from(reader: &mut ByteReader) -> (r: Result<(Self, usize), CodecError>)
        ensures
            r is Err <==> old(reader)@.len() < 8,
            r matches Err(e) ==> e == CodecError::UnexpectedEof,
    {
        match reader.read_le(8) {
            Ok(v) => {
                let x: u64 = v as u64;
                proof {
                    reveal_with_fuel(pow256, 9);
                    lemma_le_bytes_len(v as nat, 8);
                    assert(old(reader)@ =~= x.wire() + reader@);
                }
                Ok((x, 8))
            },
            Err(e) => {
                proof {
                    assert forall|x: u64, rest: Seq<u8>| #[trigger] x.encodable() && old(reader)@ == #[trigger] (x.wire() + rest) implies false by {
                        lemma_le_bytes_len(x as nat, 8);
                    }
                }
                Err(e)
            },
        }
    }

    fn never_empty() -> (r: bool) {
        proof {
            assert forall|v: Self| #[trigger] v.encodable() implies v.wire().len() >= 1 by {
                lemma_le_bytes_len(v as nat, 8);
            }
        }
        true
    }

    proof fn lemma_truncated(v: Self, k: nat) {

    }

    proof fn lemma_prefix_unique(a: Self, b: Self, ra: Seq<u8>, rb: Seq<u8>) {
        lemma_le_bytes_len(a as nat, 8);
        lemma_le_bytes_len(b as nat, 8);
        assert(a.wire() =~= (a.wire() + ra).take(8));
        assert(b.wire() =~= (b.wire() + rb).take(8));
        reveal_with_fuel(pow256, 9);
        lemma_le_bytes_injective(a as nat, b as nat, 8);
    }
}


impl Encode for u128 {
    open spec fn fast_len(&self) -> nat {
        16
    }

    open spec fn encodable(&self) -> bool {
        true
    }

    open spec fn wire(&self) -> Seq<u8> {
        le_bytes(*self as nat, 16)
    }

    open spec fn fast_exact(&self) -> bool {
        true
    }

    fn fast_size(&self) -> (r: usize) {
        proof {
            lemma_le_bytes_len(*self as nat, 16);
        }
        16
    }

    fn size(&self) -> (r: Result<usize, CodecError>) {
        proof {
            lemma_le_bytes_len(*self as nat, 16);
        }
        Ok(16)
    }

    fn encode_into(&self, out: &mut Vec<u8>) -> (r: Result<(), CodecError>) {
        write_le(out, *self as u128, 16);
        Ok(())
    }
}

impl Decode for u128 {
    open spec fn decode_error(input: Seq<u8>) -> CodecError {
        CodecError::UnexpectedEof
    }

    /// Fewer than 16 bytes left is `UnexpectedEof`, the only failure.
    fn decode_with_len_from(reader: &mut ByteReader) -> (r: Result<(Self, usize), CodecError>)
        ensures
            r is Err <==> old(reader)@.len() < 16,
            r matches Err(e) ==> e == CodecError::UnexpectedEof,
    {
        match reader.read_le(16) {
            Ok(v) => {
                let x: u128 = v as u128;
                proof {
                    reveal_with_fuel(pow256, 17);
                    lemma_le_bytes_len(v as nat, 16);
                    assert(old(reader)@ =~= x.wire() + reader@);
                }
                Ok((x, 16))
            },
            Err(e) => {
                proof {
                    assert forall|x: u128, rest: Seq<u8>| #[trigger] x.encodable() && old(reader)@ == #[trigger] (x.wire() + rest) implies false by {
                        lemma_le_bytes_len(x as nat, 16);
                    }
                }
                Err(e)
            },
        }
    }

    fn never_empty() -> (r: bool) {
        proof {
            assert forall|v: Self| #[trigger] v.encodable() implies v.wire().len() >= 1 by {
                lemma_le_bytes_len(v as nat, 16);
            }
        }
        true
    }

    proof fn lemma_truncated(v: Self, k: nat) {

    }

    proof fn lemma_prefix_unique(a: Self, b: Self, ra: Seq<u8>, rb: Seq<u8>) {
        lemma_le_bytes_len(a as nat, 16);
        lemma_le_bytes_len(b as nat, 16);
        assert(a.wire() =~= (a.wire() + ra).take(16));
        assert(b.wire() =~= (b.wire() + rb).take(16));
        reveal_with_fuel(pow256, 17);
        lemma_le_bytes_injective(a as nat, b as nat, 16);
    }
}


impl Encode for i8 {
    open spec fn fast_len(&self) -> nat {
        1
    }

    open spec fn encodable(&self) -> bool {
        true
    }

    open spec fn wire(&self) -> Seq<u8> {
        le_bytes((*self as u8) as nat, 1)
    }

    open spec fn fast_exact(&self) -> bool {
        true
    }

    fn fast_size(&self) -> (r: usize) {
        proof {
            lemma_le_bytes_len((*self as u8) as nat, 1);
        }
        1
    }

    fn size(&self) -> (r: Result<usize, CodecError>) {
        proof {
            lemma_le_bytes_len((*self as u8) as nat, 1);
        }
        Ok(1)
    }

    fn encode_into(&self, out: &mut Vec<u8>) -> (r: Result<(), CodecError>) {
        write_le(out, (*self as u8) as u128, 1);
        Ok(())
    }
}

impl Decode for i8 {
    open spec fn decode_error(input: Seq<u8>) -> CodecError {
        CodecError::UnexpectedEof
    }

    /// Fewer than 1 byte left is `UnexpectedEof`, the only failure.
    fn decode_with_len_from(reader: &mut ByteReader) -> (r: Result<(Self, usize), CodecError>)
        ensures
            r is Err <==> old(reader)@.len() < 1,
            r matches Err(e) ==> e == CodecError::UnexpectedEof,
    {
        match reader.read_le(1) {
            Ok(v) => {
                let x: i8 = (v as u8) as i8;
                proof {
                    reveal_with_fuel(pow256, 2);
                    lemma_le_bytes_len(v as nat, 1);
                    assert(((x as u8) as nat) == v as nat) by {
                        lemma_i8_cast(v as u8);
                    }
                    assert(old(reader)@ =~= x.wire() + reader@);
                }
                Ok((x, 1))
            },
            Err(e) => {
                proof {
                    assert forall|x: i8, rest: Seq<u8>| #[trigger] x.encodable() && old(reader)@ == #[trigger] (x.wire() + rest) implies false by {
                        lemma_le_bytes_len((x as u8) as nat, 1);
                    }
                }
                Err(e)
            },
        }
    }

    fn never_empty() -> (r: bool) {
        proof {
            assert forall|v: Self| #[trigger] v.encodable() implies v.wire().len() >= 1 by {
                lemma_le_bytes_len((v as u8) as nat, 1);
            }
        }
        true
    }

    proof fn lemma_truncated(v: Self, k: nat) {

    }

    proof fn lemma_prefix_unique(a: Self, b: Self, ra: Seq<u8>, rb: Seq<u8>) {
        lemma_le_bytes_len((a as u8) as nat, 1);
        lemma_le_bytes_len((b as u8) as nat, 1);
        assert(a.wire() =~= (a.wire() + ra).take(1));
        assert(b.wire() =~= (b.wire() + rb).take(1));
        reveal_with_fuel(pow256, 2);
        lemma_le_bytes_injective((a as u8) as nat, (b as u8) as nat, 1);
        lemma_i8_cast_injective(a, b);
    }
}


impl Encode for i16 {
    open spec fn fast_len(&self) -> nat {
        2
    }

    open spec fn encodable(&self) -> bool {
        true
    }

    open spec fn wire(&self) -> Seq<u8> {
        le_bytes((*self as u16) as nat, 2)
    }

    open spec fn fast_exact(&self) -> bool {
        true
    }

    fn fast_size(&self) -> (r: usize) {
        proof {
            lemma_le_bytes_len((*self as u16) as nat, 2);
        }
        2
    }

    fn size(&self) -> (r: Result<usize, CodecError>) {
        proof {
            lemma_le_bytes_len((*self as u16) as nat, 2);
        }
        Ok(2)
    }

    fn encode_into(&self, out: &mut Vec<u8>) -> (r: Result<(), CodecError>) {
        write_le(out, (*self as u16) as u128, 2);
        Ok(())
    }
}

impl Decode for i16 {
    open spec fn decode_error(input: Seq<u8>) -> CodecError {
        CodecError::UnexpectedEof
    }

    /// Fewer than 2 bytes left is `UnexpectedEof`, the only failure.
    fn decode_with_len_from(reader: &mut ByteReader) -> (r: Result<(Self, usize), CodecError>)
        ensures
            r is Err <==> old(reader)@.len() < 2,
            r matches Err(e) ==> e == CodecError::UnexpectedEof,
    {
        match reader.read_le(2) {
            Ok(v) => {
                let x: i16 = (v as u16) as i16;
                proof {
                    reveal_with_fuel(pow256, 3);
                    lemma_le_bytes_len(v as nat, 2);
                    assert(((x as u16) as nat) == v as nat) by {
                        lemma_i16_cast(v as u16);
                    }
                    assert(old(reader)@ =~= x.wire() + reader@);
                }
                Ok((x, 2))
            },
            Err(e) => {
                proof {
                    assert forall|x: i16, rest: Seq<u8>| #[trigger] x.encodable() && old(reader)@ == #[trigger] (x.wire() + rest) implies false by {
                        lemma_le_bytes_len((x as u16) as nat, 2);
                    }
                }
                Err(e)
            },
        }
    }

    fn never_empty() -> (r: bool) {
        proof {
            assert forall|v: Self| #[trigger] v.encodable() implies v.wire().len() >= 1 by {
                lemma_le_bytes_len((v as u16) as nat, 2);
            }
        }
        true
    }

    proof fn lemma_truncated(v: Self, k: nat) {

    }

    proof fn lemma_prefix_unique(a: Self, b: Self, ra: Seq<u8>, rb: Seq<u8>) {
        lemma_le_bytes_len((a as u16) as nat, 2);
        lemma_le_bytes_len((b as u16) as nat, 2);
        assert(a.wire() =~= (a.wire() + ra).take(2));
        assert(b.wire() =~= (b.wire() + rb).take(2));
        reveal_with_fuel(pow256, 3);
        lemma_le_bytes_injective((a as u16) as nat, (b as u16) as nat, 2);
        lemma_i16_cast_injective(a, b);
    }
}


impl Encode for i32 {
    open spec fn fast_len(&self) -> nat {
        4
    }

    open spec fn encodable(&self) -> bool {
        true
    }

    open spec fn wire(&self) -> Seq<u8> {
        le_bytes((*self as u32) as nat, 4)
    }

    open spec fn fast_exact(&self) -> bool {
        true
    }

    fn fast_size(&self) -> (r: usize) {
        proof {
            lemma_le_bytes_len((*self as u32) as nat, 4);
        }
        4
    }

    fn size(&self) -> (r: Result<usize, CodecError>) {
        proof {
            lemma_le_bytes_len((*self as u32) as nat, 4);
        }
        Ok(4)
    }

    fn encode_into(&self, out: &mut Vec<u8>) -> (r: Result<(), CodecError>) {
        write_le(out, (*self as u32) as u128, 4);
        Ok(())
    }
}

impl Decode for i32 {
    open spec fn decode_error(input: Seq<u8>) -> CodecError {
        CodecError::UnexpectedEof
    }

    /// Fewer than 4 bytes left is `UnexpectedEof`, the only failure.
    fn decode_with_len_from(reader: &mut ByteReader) -> (r: Result<(Self, usize), CodecError>)
        ensures
            r is Err <==> old(reader)@.len() < 4,
            r matches Err(e) ==> e == CodecError::UnexpectedEof,
    {
        match reader.read_le(4) {
            Ok(v) => {
                let x: i32 = (v as u32) as i32;
                proof {
                    reveal_with_fuel(pow256, 5);
                    lemma_le_bytes_len(v as nat, 4);
                    assert(((x as u32) as nat) == v as nat) by {
                        lemma_i32_cast(v as u32);
                    }
                    assert(old(reader)@ =~= x.wire() + reader@);
                }
                Ok((x, 4))
            },
            Err(e) => {
                proof {
                    assert forall|x: i32, rest: Seq<u8>| #[trigger] x.encodable() && old(reader)@ == #[trigger] (x.wire() + rest) implies false by {
                        lemma_le_bytes_len((x as u32) as nat, 4);
                    }
                }
                Err(e)
            },
        }
    }

    fn never_empty() -> (r: bool) {
        proof {
            assert forall|v: Self| #[trigger] v.encodable() implies v.wire().len() >= 1 by {
                lemma_le_bytes_len((v as u32) as nat, 4);
            }
        }
        true
    }

    proof fn lemma_truncated(v: Self, k: nat) {

    }

    proof fn lemma_prefix_unique(a: Self, b: Self, ra: Seq<u8>, rb: Seq<u8>) {
        lemma_le_bytes_len((a as u32) as nat, 4);
        lemma_le_bytes_len((b as u32) as nat, 4);
        assert(a.wire() =~= (a.wire() + ra).take(4));
        assert(b.wire() =~= (b.wire() + rb).take(4));
        reveal_with_fuel(pow256, 5);
        lemma_le_bytes_injective((a as u32) as nat, (b as u32) as nat, 4);
        lemma_i32_cast_injective(a, b);
    }
}


impl Encode for i64 {
    open spec fn fast_len(&self) -> nat {
        8
    }

    open spec fn encodable(&self) -> bool {
        true
    }

    open spec fn wire(&self) -> Seq<u8> {
        le_bytes((*self as u64) as nat, 8)
    }

    open spec fn fast_exact(&self) -> bool {
        true
    }

    fn fast_size(&self) -> (r: usize) {
        proof {
            lemma_le_bytes_len((*self as u64) as nat, 8);
        }
        8
    }

    fn size(&self) -> (r: Result<usize, CodecError>) {
        proof {
            lemma_le_bytes_len((*self as u64) as nat, 8);
        }
        Ok(8)
    }

    fn encode_into(&self, out: &mut Vec<u8>) -> (r: Result<(), CodecError>) {
        write_le(out, (*self as u64) as u128, 8);
        Ok(())
    }
}

impl Decode for i64 {
    open spec fn decode_error(input: Seq<u8>) -> CodecError {
        CodecError::UnexpectedEof
    }

    /// Fewer than 8 bytes left is `UnexpectedEof`, the only failure.
    fn decode_with_len_from(reader: &mut ByteReader) -> (r: Result<(Self, usize), CodecError>)
        ensures
            r is Err <==> old(reader)@.len() < 8,
            r matches Err(e) ==> e == CodecError::UnexpectedEof,
    {
        match reader.read_le(8) {
            Ok(v) => {
                let x: i64 = (v as u64) as i64;
                proof {
                    reveal_with_fuel(pow256, 9);
                    lemma_le_bytes_len(v as nat, 8);
                    assert(((x as u64) as nat) == v as nat) by {
                        lemma_i64_cast(v as u64);
                    }
                    assert(old(reader)@ =~= x.wire() + reader@);
                }
                Ok((x, 8))
            },
            Err(e) => {
                proof {
                    assert forall|x: i64, rest: Seq<u8>| #[trigger] x.encodable() && old(reader)@ == #[trigger] (x.wire() + rest) implies false by {
                        lemma_le_bytes_len((x as u64) as nat, 8);
                    }
                }
                Err(e)
            },
        }
    }

    fn never_empty() -> (r: bool) {
        proof {
            assert forall|v: Self| #[trigger] v.encodable() implies v.wire().len() >= 1 by {
                lemma_le_bytes_len((v as u64) as nat, 8);
            }
        }
        true
    }

    proof fn lemma_truncated(v: Self, k: nat) {

    }

    proof fn lemma_prefix_unique(a: Self, b: Self, ra: Seq<u8>, rb: Seq<u8>) {
        lemma_le_bytes_len((a as u64) as nat, 8);
        lemma_le_bytes_len((b as u64) as nat, 8);
        assert(a.wire() =~= (a.wire() + ra).take(8));
        assert(b.wire() =~= (b.wire() + rb).take(8));
        reveal_with_fuel(pow256, 9);
        lemma_le_bytes_injective((a as u64) as nat, (b as u64) as nat, 8);
        lemma_i64_cast_injective(a, b);
    }
}


impl Encode for i128 {
    open spec fn fast_len(&self) -> nat {
        16
    }

    open spec fn encodable(&self) -> bool {
        true
    }

    open spec fn wire(&self) -> Seq<u8> {
        le_bytes((*self as u128) as nat, 16)
    }

    open spec fn fast_exact(&self) -> bool {
        true
    }

    fn fast_size(&self) -> (r: usize) {
        proof {
            lemma_le_bytes_len((*self as u128) as nat, 16);
        }
        16
    }

    fn size(&self) -> (r: Result<usize, CodecError>) {
        proof {
            lemma_le_bytes_len((*self as u128) as nat, 16);
        }
        Ok(16)
    }

    fn encode_into(&self, out: &mut Vec<u8>) -> (r: Result<(), CodecError>) {
        write_le(out, (*self as u128) as u128, 16);
        Ok(())
    }
}

impl Decode for i128 {
    open spec fn decode_error(input: Seq<u8>) -> CodecError {
        CodecError::UnexpectedEof
    }

    /// Fewer than 16 bytes left is `UnexpectedEof`, the only failure.
    fn decode_with_len_from(reader: &mut ByteReader) -> (r: Result<(Self, usize), CodecError>)
        ensures
            r is Err <==> old(reader)@.len() < 16,
            r matches Err(e) ==> e == CodecError::UnexpectedEof,
    {
        match reader.read_le(16) {
            Ok(v) => {
                let x: i128 = (v as u128) as i128;
                proof {
                    reveal_with_fuel(pow256, 17);
                    lemma_le_bytes_len(v as nat, 16);
                    assert(((x as u128) as nat) == v as nat) by {
                        lemma_i128_cast(v as u128);
                    }
                    assert(old(reader)@ =~= x.wire() + reader@);
                }
                Ok((x, 16))
            },
            Err(e) => {
                proof {
                    assert forall|x: i128, rest: Seq<u8>| #[trigger] x.encodable() && old(reader)@ == #[trigger] (x.wire() + rest) implies false by {
                        lemma_le_bytes_len((x as u128) as nat, 16);
                    }
                }
                Err(e)
            },
        }
    }

    fn never_empty() -> (r: bool) {
        proof {
            assert forall|v: Self| #[trigger] v.encodable() implies v.wire().len() >= 1 by {
                lemma_le_bytes_len((v as u128) as nat, 16);
            }
        }
        true
    }

    proof fn lemma_truncated(v: Self, k: nat) {

    }

    proof fn lemma_prefix_unique(a: Self, b: Self, ra: Seq<u8>, rb: Seq<u8>) {
        lemma_le_bytes_len((a as u128) as nat, 16);
        lemma_le_bytes_len((b as u128) as nat, 16);
        assert(a.wire() =~= (a.wire() + ra).take(16));
        assert(b.wire() =~= (b.wire() + rb).take(16));
        reveal_with_fuel(pow256, 17);
        lemma_le_bytes_injective((a as u128) as nat, (b as u128) as nat, 16);
        lemma_i128_cast_injective(a, b);
    }
}

/// Platform-sized integers travel as 64-bit ones, so the bytes do not depend on the platform.
impl Encode for usize {
    open spec fn fast_len(&self) -> nat {
        8
    }

    open spec fn encodable(&self) -> bool {
        true
    }

    open spec fn wire(&self) -> Seq<u8> {
        le_bytes(*self as nat, 8)
    }

    open spec fn fast_exact(&self) -> bool {
        true
    }

    fn fast_size(&self) -> (r: usize) {
        proof {
            lemma_le_bytes_len(*self as nat, 8);
        }
        8
    }

    fn size(&self) -> (r: Result<usize, CodecError>) {
        proof {
            lemma_le_bytes_len(*self as nat, 8);
        }
        Ok(8)
    }

    fn encode_into(&self, out: &mut Vec<u8>) -> (r: Result<(), CodecError>) {
        write_le(out, *self as u128, 8);
        Ok(())
    }
}

impl Decode for usize {
    open spec fn decode_error(input: Seq<u8>) -> CodecError {
        if input.len() < 8 {
            CodecError::UnexpectedEof
        } else {
            CodecError::InvalidData
        }
    }

    /// A 64-bit value beyond the platform's `usize` is `InvalidData`.
    fn decode_with_len_from(reader: &mut ByteReader) -> (r: Result<(Self, usize), CodecError>) {
        match reader.read_le(8) {
            Ok(v) => {
                proof {
                    reveal_with_fuel(pow256, 9);
                    lemma_le_bytes_len(v as nat, 8);
                }
                if v > usize::MAX as u128 {
                    proof {
                        assert forall|x: usize, rest: Seq<u8>| #[trigger] x.encodable() && old(reader)@ == #[trigger] (x.wire() + rest) implies false by {
                            lemma_le_bytes_len(x as nat, 8);
                            assert(x.wire() =~= old(reader)@.take(8));
                            lemma_le_bytes_injective(x as nat, v as nat, 8);
                        }
                    }
                    return Err(CodecError::InvalidData);
                }
                let x = v as usize;
                proof {
                    assert(old(reader)@ =~= x.wire() + reader@);
                }
                Ok((x, 8))
            },
            Err(e) => {
                proof {
                    assert forall|x: usize, rest: Seq<u8>| #[trigger] x.encodable() && old(reader)@ == #[trigger] (x.wire() + rest) implies false by {
                        lemma_le_bytes_len(x as nat, 8);
                    }
                }
                Err(e)
            },
        }
    }

    fn never_empty() -> (r: bool) {
        proof {
            assert forall|v: Self| #[trigger] v.encodable() implies v.wire().len() >= 1 by {
                lemma_le_bytes_len(v as nat, 8);
            }
        }
        true
    }

    proof fn lemma_truncated(v: Self, k: nat) {
        lemma_le_bytes_len(v as nat, 8);
    }

    proof fn lemma_prefix_unique(a: Self, b: Self, ra: Seq<u8>, rb: Seq<u8>) {
        lemma_le_bytes_len(a as nat, 8);
        lemma_le_bytes_len(b as nat, 8);
        assert(a.wire() =~= (a.wire() + ra).take(8));
        assert(b.wire() =~= (b.wire() + rb).take(8));
        reveal_with_fuel(pow256, 9);
        lemma_le_bytes_injective(a as nat, b as nat, 8);
    }
}

impl Encode for isize {
    open spec fn fast_len(&self) -> nat {
        8
    }

    open spec fn encodable(&self) -> bool {
        true
    }

    open spec fn wire(&self) -> Seq<u8> {
        le_bytes(((*self as i64) as u64) as nat, 8)
    }

    open spec fn fast_exact(&self) -> bool {
        true
    }

    fn fast_size(&self) -> (r: usize) {
        proof {
            lemma_le_bytes_len(((*self as i64) as u64) as nat, 8);
        }
        8
    }

    fn size(&self) -> (r: Result<usize, CodecError>) {
        proof {
            lemma_le_bytes_len(((*self as i64) as u64) as nat, 8);
        }
        Ok(8)
    }

    fn encode_into(&self, out: &mut Vec<u8>) -> (r: Result<(), CodecError>) {
        write_le(out, ((*self as i64) as u64) as u128, 8);
        Ok(())
    }
}

impl Decode for isize {
    open spec fn decode_error(input: Seq<u8>) -> CodecError {
        if input.len() < 8 {
            CodecError::UnexpectedEof
        } else {
            CodecError::InvalidData
        }
    }

    /// A 64-bit value beyond the platform's `isize` is `InvalidData`.
    fn decode_with_len_from(reader: &mut ByteReader) -> (r: Result<(Self, usize), CodecError>) {
        match reader.read_le(8) {
            Ok(v) => {
                proof {
                    reveal_with_fuel(pow256, 9);
                    lemma_le_bytes_len(v as nat, 8);
                    lemma_i64_cast(v as u64);
                }
                let s = (v as u64) as i64;
                if s < isize::MIN as i64 || s > isize::MAX as i64 {
                    proof {
                        assert forall|x: isize, rest: Seq<u8>| #[trigger] x.encodable() && old(reader)@ == #[trigger] (x.wire() + rest) implies false by {
                            lemma_le_bytes_len(((x as i64) as u64) as nat, 8);
                            assert(x.wire() =~= old(reader)@.take(8));
                            lemma_le_bytes_injective(((x as i64) as u64) as nat, v as nat, 8);
                            lemma_i64_cast_injective(x as i64, s);
                        }
                    }
                    return Err(CodecError::InvalidData);
                }
                let x = s as isize;
                proof {
                    assert(old(reader)@ =~= x.wire() + reader@);
                }
                Ok((x, 8))
            },
            Err(e) => {
                proof {
                    assert forall|x: isize, rest: Seq<u8>| #[trigger] x.encodable() && old(reader)@ == #[trigger] (x.wire() + rest) implies false by {
                        lemma_le_bytes_len(((x as i64) as u64) as nat, 8);
                    }
                }
                Err(e)
            },
        }
    }

    fn never_empty() -> (r: bool) {
        proof {
            assert forall|v: Self| #[trigger] v.encodable() implies v.wire().len() >= 1 by {
                lemma_le_bytes_len(((v as i64) as u64) as nat, 8);
            }
        }
        true
    }

    proof fn lemma_truncated(v: Self, k: nat) {
        lemma_le_bytes_len(((v as i64) as u64) as nat, 8);
    }

    proof fn lemma_prefix_unique(a: Self, b: Self, ra: Seq<u8>, rb: Seq<u8>) {
        lemma_le_bytes_len(((a as i64) as u64) as nat, 8);
        lemma_le_bytes_len(((b as i64) as u64) as nat, 8);
        assert(a.wire() =~= (a.wire() + ra).take(8));
        assert(b.wire() =~= (b.wire() + rb).take(8));
        reveal_with_fuel(pow256, 9);
        lemma_le_bytes_injective(((a as i64) as u64) as nat, ((b as i64) as u64) as nat, 8);
        lemma_i64_cast_injective(a as i64, b as i64);
    }
}

/// The byte of a boolean: `1` for true, `0` for false.
pub open spec fn bool_byte(b: bool) -> u8 {
    if b {
        1
    } else {
        0
    }
}

impl Encode for bool {
    open spec fn fast_len(&self) -> nat {
        1
    }

    open spec fn encodable(&self) -> bool {
        true
    }

    open spec fn wire(&self) -> Seq<u8> {
        seq![bool_byte(*self)]
    }

    open spec fn fast_exact(&self) -> bool {
        true
    }

    fn fast_size(&self) -> (r: usize) {
        1
    }

    fn size(&self) -> (r: Result<usize, CodecError>) {
        Ok(1)
    }

    fn encode_into(&self, out: &mut Vec<u8>) -> (r: Result<(), CodecError>) {
        out.push(if *self { 1u8 } else { 0u8 });
        assert(out@ =~= old(out)@ + self.wire());
        Ok(())
    }
}

impl Decode for bool {
    open spec fn decode_error(input: Seq<u8>) -> CodecError {
        if input.len() == 0 {
            CodecError::UnexpectedEof
        } else {
            CodecError::InvalidData
        }
    }

    /// An empty input is `UnexpectedEof`; a first byte other than `0` or `1` is `InvalidData`.
    fn decode_with_len_from(reader: &mut ByteReader) -> (r: Result<(Self, usize), CodecError>)
        ensures
            old(reader)@.len() == 0 ==> r == Err::<(bool, usize), CodecError>(
                CodecError::UnexpectedEof,
            ),
            old(reader)@.len() >= 1 && old(reader)@[0] > 1 ==> r == Err::<(bool, usize), CodecError>(
                CodecError::InvalidData,
            ),
    {
        match reader.read_u8() {
            Ok(b) => {
                if b == 0 {
                    assert(old(reader)@ =~= false.wire() + reader@);
                    Ok((false, 1))
                } else if b == 1 {
                    assert(old(reader)@ =~= true.wire() + reader@);
                    Ok((true, 1))
                } else {
                    proof {
                        assert forall|x: bool, rest: Seq<u8>| #[trigger] x.encodable() && old(reader)@ == #[trigger] (x.wire() + rest) implies false by {
                            assert(old(reader)@[0] == (x.wire() + rest)[0]);
                        }
                    }
                    Err(CodecError::InvalidData)
                }
            },
            Err(e) => {
                proof {
                    assert forall|x: bool, rest: Seq<u8>| #[trigger] x.encodable() && old(reader)@ == #[trigger] (x.wire() + rest) implies false by {
                        assert((x.wire() + rest).len() >= 1);
                    }
                }
                Err(e)
            },
        }
    }

    fn never_empty() -> (r: bool) {
        proof {
            assert forall|v: Self| #[trigger] v.encodable() implies v.wire().len() >= 1 by {
            }
        }
        true
    }

    proof fn lemma_truncated(v: Self, k: nat) {

    }

    proof fn lemma_prefix_unique(a: Self, b: Self, ra: Seq<u8>, rb: Seq<u8>) {
        assert((a.wire() + ra)[0] == bool_byte(a));
        assert((b.wire() + rb)[0] == bool_byte(b));
    }
}

/// A fixed-length byte array is its bytes, with no length in front.
impl<const N: usize> Encode for [u8; N] {
    open spec fn fast_len(&self) -> nat {
        N as nat
    }

    open spec fn encodable(&self) -> bool {
        true
    }

    open spec fn wire(&self) -> Seq<u8> {
        self@
    }

    open spec fn fast_exact(&self) -> bool {
        true
    }

    fn fast_size(&self) -> (r: usize) {
        N
    }

    fn size(&self) -> (r: Result<usize, CodecError>) {
        Ok(N)
    }

    fn encode_into(&self, out: &mut Vec<u8>) -> (r: Result<(), CodecError>) {
        let mut i: usize = 0;
        while i < N
            invariant
                i <= N,
                self@.len() == N,
                out@ == old(out)@ + self@.take(i as int),
            decreases N - i,
        {
            out.push(self[i]);
            assert(self@.take(i + 1) =~= self@.take(i as int).push(self@[i as int]));
            assert(out@ =~= old(out)@ + self@.take(i + 1));
            i = i + 1;
        }
        assert(self@.take(N as int) =~= self@);
        Ok(())
    }
}

impl<const N: usize> Decode for [u8; N] {
    open spec fn decode_error(input: Seq<u8>) -> CodecError {
        CodecError::UnexpectedEof
    }

    /// Fewer than `N` bytes left is `UnexpectedEof`.
    fn decode_with_len_from(reader: &mut ByteReader) -> (r: Result<(Self, usize), CodecError>)
        ensures
            r is Err <==> old(reader)@.len() < N,
            r matches Err(e) ==> e == CodecError::UnexpectedEof,
    {
        match reader.read_bytes(N) {
            Ok(s) => {
                let mut a: [u8; N] = [0u8; N];
                let mut i: usize = 0;
                while i < N
                    invariant
                        i <= N,
                        s@.len() == N,
                        a@.len() == N,
                        forall|k: int| 0 <= k < i ==> a@[k] == s@[k],
                    decreases N - i,
                {
                    a[i] = s[i];
                    i = i + 1;
                }
                assert(a@ =~= s@);
                assert(old(reader)@ =~= a.wire() + reader@);
                Ok((a, N))
            },
            Err(e) => {
                proof {
                    assert forall|x: [u8; N], rest: Seq<u8>| #[trigger] x.encodable() && old(reader)@ == #[trigger] (x.wire() + rest) implies false by {
                        assert(x@.len() == N);
                    }
                }
                Err(e)
            },
        }
    }

    fn never_empty() -> (r: bool) {
        if N == 0 {
            proof {
                let a = vstd::pervasive::arbitrary::<[u8; N]>();
                assert(a.encodable() && a.wire().len() == 0);
            }
        }
        N > 0
    }

    proof fn lemma_truncated(v: Self, k: nat) {

    }

    proof fn lemma_prefix_unique(a: Self, b: Self, ra: Seq<u8>, rb: Seq<u8>) {
        assert(a.wire() =~= (a.wire() + ra).take(N as int));
        assert(b.wire() =~= (b.wire() + rb).take(N as int));
        assert(a.deep_view() =~= b.deep_view());
    }
}

proof fn lemma_i8_cast(u: u8)
    ensures
        ((u as i8) as u8) == u,
{
    assert(((u as i8) as u8) == u) by (bit_vector);
}

proof fn lemma_i8_cast_injective(a: i8, b: i8)
    requires
        (a as u8) == (b as u8),
    ensures
        a == b,
{
    assert((a as u8) == (b as u8) ==> a == b) by (bit_vector);
}

proof fn lemma_i16_cast(u: u16)
    ensures
        ((u as i16) as u16) == u,
{
    assert(((u as i16) as u16) == u) by (bit_vector);
}

proof fn lemma_i16_cast_injective(a: i16, b: i16)
    requires
        (a as u16) == (b as u16),
    ensures
        a == b,
{
    assert((a as u16) == (b as u16) ==> a == b) by (bit_vector);
}

proof fn lemma_i32_cast(u: u32)
    ensures
        ((u as i32) as u32) == u,
{
    assert(((u as i32) as u32) == u) by (bit_vector);
}

proof fn lemma_i32_cast_injective(a: i32, b: i32)
    requires
        (a as u32) == (b as u32),
    ensures
        a == b,
{
    assert((a as u32) == (b as u32) ==> a == b) by (bit_vector);
}

proof fn lemma_i64_cast(u: u64)
    ensures
        ((u as i64) as u64) == u,
{
    assert(((u as i64) as u64) == u) by (bit_vector);
}

proof fn lemma_i64_cast_injective(a: i64, b: i64)
    requires
        (a as u64) == (b as u64),
    ensures
        a == b,
{
    assert((a as u64) == (b as u64) ==> a == b) by (bit_vector);
}

proof fn lemma_i128_cast(u: u128)
    ensures
        ((u as i128) as u128) == u,
{
    assert(((u as i128) as u128) == u) by (bit_vector);
}

proof fn lemma_i128_cast_injective(a: i128, b: i128)
    requires
        (a as u128) == (b as u128),
    ensures
        a == b,
{
    assert((a as u128) == (b as u128) ==> a == b) by (bit_vector);
}

} // verus!
