//! Byte strings: the same layout as a sequence of `u8`, written and read in bulk.
use vstd::prelude::*;
use crate::collections::{collection_wire, len_prefix, seq_wire};
use crate::le::{le_bytes, le_value, lemma_le_bytes_len, write_le};
use crate::reader::ByteReader;
use crate::{CodecError, Encode, MAX_LEN};

verus! {

/// A byte string on the wire: its length as a two-byte count, then the bytes.
pub open spec fn byte_string_wire(s: Seq<u8>) -> Seq<u8> {
    len_prefix(s.len()) + s
}

/// The bulk layout is the one a sequence of `u8` has entry by entry.
pub proof fn lemma_byte_string_wire(s: Seq<u8>)
    ensures
        collection_wire(s) == byte_string_wire(s),
{
    lemma_seq_wire_bytes(s);
}

proof fn lemma_seq_wire_bytes(s: Seq<u8>)
    ensures
        seq_wire(s) == s,
    decreases s.len(),
{
    if s.len() > 0 {
        lemma_seq_wire_bytes(s.drop_last());
        reveal_with_fuel(le_bytes, 2);
        assert(s.last().wire() =~= seq![s.last()]);
        assert(s.drop_last().push(s.last()) =~= s);
    } else {
        assert(s =~= Seq::<u8>::empty());
    }
}

/// Appends `bytes` as a byte string: fails with `InvalidInput` over `MAX_LEN` bytes.
pub fn encode_bytes_into(bytes: &[u8], out: &mut Vec<u8>) -> (r: Result<(), CodecError>)
    ensures
        match r {
            Ok(()) => bytes@.len() <= MAX_LEN && final(out)@ == old(out)@ + byte_string_wire(bytes@),
            Err(e) => e == CodecError::InvalidInput && bytes@.len() > MAX_LEN
                && final(out)@ == old(out)@,
        },
{
    let len = bytes.len();
    if len > MAX_LEN {
        return Err(CodecError::InvalidInput);
    }
    write_le(out, len as u128, 2);
    let mut i: usize = 0;
    while i < len
        invariant
            len == bytes@.len(),
            i <= len,
            out@ == old(out)@ + len_prefix(len as nat) + bytes@.take(i as int),
        decreases len - i,
    {
        out.push(bytes[i]);
        assert(bytes@.take(i + 1) =~= bytes@.take(i as int).push(bytes@[i as int]));
        assert(out@ =~= old(out)@ + len_prefix(len as nat) + bytes@.take(i + 1));
        i = i + 1;
    }
    assert(bytes@.take(len as int) =~= bytes@);
    assert(out@ =~= old(out)@ + byte_string_wire(bytes@));
    Ok(())
}

/// `bytes` as a byte string in a buffer of its own.
pub fn encode_bytes(bytes: &[u8]) -> (r: Result<Vec<u8>, CodecError>)
    ensures
        match r {
            Ok(b) => bytes@.len() <= MAX_LEN && b@ == byte_string_wire(bytes@),
            Err(e) => e == CodecError::InvalidInput && bytes@.len() > MAX_LEN,
        },
{
    if bytes.len() > MAX_LEN {
        return Err(CodecError::InvalidInput);
    }
    let mut out: Vec<u8> = Vec::with_capacity(bytes.len() + 2);
    match encode_bytes_into(bytes, &mut out) {
        Ok(()) => {
            assert(out@ =~= byte_string_wire(bytes@));
            Ok(out)
        },
        Err(e) => Err(e),
    }
}

/// Reads a byte string from the front of `reader` in one piece. Fewer than two
/// bytes, or fewer bytes after the count than it declares, is `UnexpectedEof`.
pub fn decode_bytes_from(reader: &mut ByteReader) -> (r: Result<(Vec<u8>, usize), CodecError>)
    ensures
        ({
            let input = old(reader)@;
            let ok = input.len() >= 2 && le_value(input.take(2)) <= input.len() - 2;
            match r {
                Ok((v, n)) => ok && n == 2 + v@.len() && v@.len() <= MAX_LEN
                    && v@.len() == le_value(input.take(2))
                    && v@ == input.subrange(2, n as int)
                    && input == byte_string_wire(v@) + final(reader)@,
                Err(e) => !ok && e == CodecError::UnexpectedEof,
            }
        }),
{
    let ghost input = reader@;
    proof {
            reader.lemma_len_fits();
        }
    let count = match reader.read_le(2) {
        Ok(c) => {
            proof {
                reveal_with_fuel(crate::le::pow256, 3);
            }
            c as usize
        },
        Err(e) => return Err(e),
    };
    let ghost mid = reader@;
    let s = match reader.read_bytes(count) {
        Ok(s) => s,
        Err(e) => {
            assert(input.take(2) =~= input.take(2));
            return Err(e);
        },
    };
    let v = vstd::slice::slice_to_vec(s);
    proof {
        lemma_le_bytes_len(count as nat, 2);
        assert(mid =~= input.skip(2));
        assert(input =~= byte_string_wire(v@) + reader@);
        assert(v@ =~= input.subrange(2, 2 + count));
    }
    Ok((v, count + 2))
}

/// Reads a byte string from the front of `buf`; see `decode_bytes_from`.
pub fn decode_bytes(buf: &[u8]) -> (r: Result<Vec<u8>, CodecError>)
    ensures
        ({
            let ok = buf@.len() >= 2 && le_value(buf@.take(2)) <= buf@.len() - 2;
            match r {
                Ok(v) => ok && v@ == buf@.subrange(2, 2 + v@.len() as int) && v@.len() == le_value(
                    buf@.take(2),
                ),
                Err(e) => !ok && e == CodecError::UnexpectedEof,
            }
        }),
{
    let mut reader = ByteReader::new(buf);
    match decode_bytes_from(&mut reader) {
        Ok((v, _)) => Ok(v),
        Err(e) => Err(e),
    }
}

} // verus!
