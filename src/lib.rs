//! A compact, deterministic binary codec: fixed-width little-endian integers,
//! one-byte booleans, raw fixed-length byte arrays, and length-prefixed
//! collections, composed field by field with no tags and no padding.
use vstd::prelude::*;

pub mod le;
pub mod reader;
pub mod primitive;
pub mod composite;
pub mod collections;
pub mod deque;
pub mod maps;
pub mod hashed;
pub mod tuple;
pub mod bytes;
pub mod net;
pub mod date;
pub mod keys;
pub mod pow;
pub mod sparse;
pub mod laws;

pub use reader::ByteReader;

verus! {

/// The largest number of entries a length-prefixed collection may hold: its
/// count is written as a 16-bit unsigned integer.
pub const MAX_LEN: usize = 65535;

/// Why an encode or decode call failed.
#[derive(Clone, Copy, Debug, PartialEq, Eq, Structural)]
pub enum CodecError {
    /// The bytes are malformed: an unknown discriminant, a value out of its range,
    /// or keys out of order.
    InvalidData,
    /// The value cannot be written: a collection, byte string or count over
    /// `MAX_LEN`, or a field outside its range.
    InvalidInput,
    /// The input ends before the value does.
    UnexpectedEof,
}

/// A value with a deterministic byte representation.
pub trait Encode {
    /// The value can be written: every collection inside it is within `MAX_LEN`
    /// entries, and every field within its range.
    spec fn encodable(&self) -> bool;

    /// The bytes that stand for the value (meaningful when `encodable`).
    spec fn wire(&self) -> Seq<u8>;

    /// `fast_size`'s estimate is exact: every collection inside the value holds
    /// entries of one encoded length.
    spec fn fast_exact(&self) -> bool;

    /// The estimate `fast_size` makes: the sum of the fields' estimates, and for a
    /// collection two bytes plus its count times its first entry's estimate (`0`
    /// over the cap).
    spec fn fast_len(&self) -> nat;

    /// A cheap estimate of the encoded length, for sizing a buffer.
    fn fast_size(&self) -> (r: usize)
        ensures
            self.fast_len() <= usize::MAX ==> r == self.fast_len(),
            self.encodable() && self.fast_exact() && self.wire().len() <= usize::MAX ==> r
                == self.wire().len(),
    ;

    /// The exact encoded length; fails as `encode_into` would.
    fn size(&self) -> (r: Result<usize, CodecError>)
        ensures
            match r {
                Ok(n) => self.encodable() && n == self.wire().len(),
                Err(e) => e == CodecError::InvalidInput && (!self.encodable() || self.wire().len()
                    > usize::MAX),
            },
    ;

    /// Appends the value's bytes to `out`; fails with `InvalidInput` exactly when
    /// the value is not encodable, and then leaves `out` as it was.
    fn encode_into(&self, out: &mut Vec<u8>) -> (r: Result<(), CodecError>)
        ensures
            match r {
                Ok(()) => self.encodable() && final(out)@ == old(out)@ + self.wire(),
                Err(e) => e == CodecError::InvalidInput && !self.encodable() && final(out)@ == old(
                    out,
                )@,
            },
    ;

    /// The value's bytes in a buffer sized up front by `size`.
    fn encode(&self) -> (r: Result<Vec<u8>, CodecError>)
        ensures
            match r {
                Ok(b) => self.encodable() && b@ == self.wire(),
                Err(e) => e == CodecError::InvalidInput && (!self.encodable() || self.wire().len()
                    > usize::MAX),
            },
    {
        let n = match self.size() {
            Ok(n) => n,
            Err(e) => return Err(e),
        };
        let mut buf: Vec<u8> = Vec::with_capacity(n);
        match self.encode_into(&mut buf) {
            Ok(()) => {
                assert(buf@ =~= self.wire());
                Ok(buf)
            },
            Err(e) => Err(e),
        }
    }
}

/// Some encodable value of type `T` has its bytes at the front of `buf`.
pub open spec fn decodable<T: Encode>(buf: Seq<u8>) -> bool {
    exists|v: T, rest: Seq<u8>| #[trigger] v.encodable() && buf == #[trigger] (v.wire() + rest)
}

/// A value that can be read back from the front of a byte string.
pub trait Decode: Encode + DeepView + Sized {
    /// Reads one value from the front of `reader` and reports how many bytes it
    /// took. It succeeds exactly when the unread bytes begin with the bytes of
    /// some value; the value read is then the one whose bytes they are.
    fn decode_with_len_from(reader: &mut ByteReader) -> (r: Result<(Self, usize), CodecError>)
        ensures
            match r {
                Ok((v, n)) => v.encodable() && n == v.wire().len() && old(reader)@ == v.wire()
                    + final(reader)@,
                Err(e) => !decodable::<Self>(old(reader)@) && e == Self::decode_error(old(reader)@),
            },
    ;

    /// The error that decoding `input` fails with, where no value's bytes begin it.
    spec fn decode_error(input: Seq<u8>) -> CodecError;

    /// Whether every encodable value of the type takes at least one byte.
    fn never_empty() -> (r: bool)
        ensures
            r <==> forall|v: Self| #[trigger] v.encodable() ==> v.wire().len() >= 1,
    ;

    /// No byte string begins with the bytes of two different values.
    proof fn lemma_prefix_unique(a: Self, b: Self, ra: Seq<u8>, rb: Seq<u8>)
        requires
            a.encodable(),
            b.encodable(),
            a.wire() + ra == b.wire() + rb,
        ensures
            a.deep_view() == b.deep_view(),
            a.wire() == b.wire(),
    ;

    /// Input that ends inside a value's bytes fails with `UnexpectedEof`.
    proof fn lemma_truncated(v: Self, k: nat)
        requires
            v.encodable(),
            k < v.wire().len(),
        ensures
            Self::decode_error(v.wire().take(k as int)) == CodecError::UnexpectedEof,
    ;

    /// `decode_with_len_from` on the whole of `buf`.
    fn decode_with_len(buf: &[u8]) -> (r: Result<(Self, usize), CodecError>)
        ensures
            match r {
                Ok((v, n)) => v.encodable() && n == v.wire().len() && buf@ == v.wire() + buf@.skip(
                    n as int,
                ),
                Err(e) => !decodable::<Self>(buf@) && e == Self::decode_error(buf@),
            },
    {
        let mut reader = ByteReader::new(buf);
        let r = Self::decode_with_len_from(&mut reader);
        if let Ok((v, n)) = &r {
            assert(buf@.skip(n as int) =~= reader@);
        }
        r
    }

    /// Reads one value from the front of `reader`.
    fn decode_from(reader: &mut ByteReader) -> (r: Result<Self, CodecError>)
        ensures
            match r {
                Ok(v) => v.encodable() && old(reader)@ == v.wire() + final(reader)@,
                Err(e) => !decodable::<Self>(old(reader)@) && e == Self::decode_error(old(reader)@),
            },
    {
        match Self::decode_with_len_from(reader) {
            Ok((v, _)) => Ok(v),
            Err(e) => Err(e),
        }
    }

    /// Reads one value from the front of `buf`; bytes after it are left alone.
    fn decode(buf: &[u8]) -> (r: Result<Self, CodecError>)
        ensures
            match r {
                Ok(v) => v.encodable() && buf@ == v.wire() + buf@.skip(v.wire().len() as int),
                Err(e) => !decodable::<Self>(buf@) && e == Self::decode_error(buf@),
            },
    {
        match Self::decode_with_len(buf) {
            Ok((v, _)) => Ok(v),
            Err(e) => Err(e),
        }
    }
}

/// A value of type `T` whose bytes begin `buf`, and what follows them.
pub open spec fn first_value<T: Encode>(buf: Seq<u8>) -> (T, Seq<u8>) {
    choose|v: T, rest: Seq<u8>| #[trigger] v.encodable() && buf == #[trigger] (v.wire() + rest)
}

/// What follows the first value of type `T` at the front of `buf`.
pub open spec fn after<T: Encode>(buf: Seq<u8>) -> Seq<u8> {
    first_value::<T>(buf).1
}

/// Input that ends inside a value's bytes holds no value's bytes.
pub proof fn lemma_proper_prefix_undecodable<T: Decode>(v: T, k: nat)
    requires
        v.encodable(),
        k < v.wire().len(),
    ensures
        !decodable::<T>(v.wire().take(k as int)),
{
    let p = v.wire().take(k as int);
    assert forall|w: T, r: Seq<u8>| #[trigger] w.encodable() && p == #[trigger] (w.wire() + r) implies false by {
        let tail = r + v.wire().skip(k as int);
        assert(v.wire() =~= p + v.wire().skip(k as int));
        assert(v.wire() + Seq::<u8>::empty() =~= w.wire() + tail);
        T::lemma_prefix_unique(v, w, Seq::<u8>::empty(), tail);
    }
}

/// Where a value's bytes begin `buf`, what follows it is the rest.
pub proof fn lemma_after<T: Decode>(buf: Seq<u8>, v: T, rest: Seq<u8>)
    requires
        v.encodable(),
        buf == v.wire() + rest,
    ensures
        decodable::<T>(buf),
        after::<T>(buf) == rest,
{
    assert(v.encodable() && buf == v.wire() + rest);
    let (w, r2) = first_value::<T>(buf);
    assert(w.encodable() && buf == w.wire() + r2);
    T::lemma_prefix_unique(w, v, r2, rest);
    assert(r2 =~= buf.skip(w.wire().len() as int));
    assert(rest =~= buf.skip(v.wire().len() as int));
}

} // verus!
