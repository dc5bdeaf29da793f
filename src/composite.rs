//! Optional values, boxes and tuples: built from their parts' codecs.
use vstd::prelude::*;
use crate::reader::ByteReader;
use crate::{CodecError, Decode, Encode};

verus! {

/// An absent value is the byte `0`; a present one is `1` followed by the value.
impl<T: Encode> Encode for Option<T> {
    open spec fn fast_len(&self) -> nat {
        match self {
            Some(x) => 1 + x.fast_len(),
            None => 1,
        }
    }

    open spec fn encodable(&self) -> bool {
        match self {
            Some(x) => x.encodable(),
            None => true,
        }
    }

    open spec fn wire(&self) -> Seq<u8> {
        match self {
            Some(x) => seq![1u8] + x.wire(),
            None => seq![0u8],
        }
    }

    open spec fn fast_exact(&self) -> bool {
        match self {
            Some(x) => x.fast_exact(),
            None => true,
        }
    }

    fn fast_size(&self) -> (r: usize) {
        match self {
            Some(x) => {
                let n = x.fast_size();
                if n < usize::MAX {
                    n + 1
                } else {
                    0
                }
            },
            None => 1,
        }
    }

    fn size(&self) -> (r: Result<usize, CodecError>) {
        match self {
            Some(x) => match x.size() {
                Ok(n) => {
                    if n < usize::MAX {
                        Ok(n + 1)
                    } else {
                        Err(CodecError::InvalidInput)
                    }
                },
                Err(e) => Err(e),
            },
            None => Ok(1),
        }
    }

    fn encode_into(&self, out: &mut Vec<u8>) -> (r: Result<(), CodecError>) {
        match self {
            Some(x) => {
                let start_len = out.len();
                out.push(1u8);
                match x.encode_into(out) {
                    Ok(()) => {
                        assert(out@ =~= old(out)@ + self.wire());
                        Ok(())
                    },
                    Err(e) => {
                        out.truncate(start_len);
                        assert(out@ =~= old(out)@);
                        Err(e)
                    },
                }
            },
            None => {
                out.push(0u8);
                assert(out@ =~= old(out)@ + self.wire());
                Ok(())
            },
        }
    }
}

impl<T: Decode> Decode for Option<T> {
    open spec fn decode_error(input: Seq<u8>) -> CodecError {
        if input.len() == 0 {
            CodecError::UnexpectedEof
        } else if input[0] > 1 {
            CodecError::InvalidData
        } else {
            T::decode_error(input.skip(1))
        }
    }

    fn decode_with_len_from(reader: &mut ByteReader) -> (r: Result<(Self, usize), CodecError>) {
        let ghost start = reader@;
        proof {
            reader.lemma_len_fits();
        }
        match bool::decode_with_len_from(reader) {
            Ok((true, n1)) => {
                let ghost mid = reader@;
                match T::decode_with_len_from(reader) {
                    Ok((x, n2)) => {
                        let v = Some(x);
                        assert(start =~= v.wire() + reader@);
                        Ok((v, n1 + n2))
                    },
                    Err(e) => {
                        proof {
                            assert forall|v: Option<T>, rest: Seq<u8>| #[trigger] v.encodable() && start == #[trigger] (v.wire() + rest) implies false by {
                                assert(start[0] == 1u8);
                                assert(start == true.wire() + mid);
                                if let Some(y) = v {
                                    assert(start[0] == (v.wire() + rest)[0]);
                                    assert(mid =~= start.skip(1));
                                    assert((v.wire() + rest).skip(1) =~= y.wire() + rest);
                                    assert(y.encodable() && mid == y.wire() + rest);
                                } else {
                                    assert(start[0] == (v.wire() + rest)[0]);
                                }
                            }
                            assert(mid =~= start.skip(1));
                        }
                        Err(e)
                    },
                }
            },
            Ok((false, n1)) => {
                let v = None;
                assert(start =~= v.wire() + reader@);
                Ok((v, n1))
            },
            Err(e) => {
                proof {
                    assert forall|v: Option<T>, rest: Seq<u8>| #[trigger] v.encodable() && start == #[trigger] (v.wire() + rest) implies false by {
                        match v {
                            Some(y) => {
                                assert(start =~= true.wire() + (y.wire() + rest));
                                assert(true.encodable());
                            },
                            None => {
                                assert(start =~= false.wire() + rest);
                                assert(false.encodable());
                            },
                        }
                    }
                    if start.len() >= 1 && start[0] <= 1 {
                        let b = start[0] == 1;
                        assert(start =~= b.wire() + start.skip(1));
                        assert(b.encodable());
                    }
                }
                Err(e)
            },
        }
    }

    fn never_empty() -> (r: bool) {
        proof {
            assert forall|v: Self| #[trigger] v.encodable() implies v.wire().len() >= 1 by {
            }
        }
        true
    }

    proof fn lemma_truncated(v: Self, k: nat) {
        if let Some(x) = v {
            if k > 0 {
                assert(v.wire().take(k as int).skip(1) =~= x.wire().take(k - 1));
                T::lemma_truncated(x, (k - 1) as nat);
            }
        }
    }

    proof fn lemma_prefix_unique(a: Self, b: Self, ra: Seq<u8>, rb: Seq<u8>) {
        assert((a.wire() + ra)[0] == (b.wire() + rb)[0]);
        assert((a.wire() + ra)[0] == a.wire()[0]);
        assert((b.wire() + rb)[0] == b.wire()[0]);
        match (a, b) {
            (Some(x), Some(y)) => {
                assert((a.wire() + ra).skip(1) =~= x.wire() + ra);
                assert((b.wire() + rb).skip(1) =~= y.wire() + rb);
                T::lemma_prefix_unique(x, y, ra, rb);
            },
            (None, None) => {},
            _ => {},
        }
    }
}

/// A reference adds nothing: it is what it refers to.
impl<'a, T: Encode> Encode for &'a T {
    open spec fn fast_len(&self) -> nat {
        (**self).fast_len()
    }

    open spec fn encodable(&self) -> bool {
        (**self).encodable()
    }

    open spec fn wire(&self) -> Seq<u8> {
        (**self).wire()
    }

    open spec fn fast_exact(&self) -> bool {
        (**self).fast_exact()
    }

    fn fast_size(&self) -> (r: usize) {
        (**self).fast_size()
    }

    fn size(&self) -> (r: Result<usize, CodecError>) {
        (**self).size()
    }

    fn encode_into(&self, out: &mut Vec<u8>) -> (r: Result<(), CodecError>) {
        (**self).encode_into(out)
    }
}

/// A box adds nothing: it is its content.
impl<T: Encode> Encode for Box<T> {
    open spec fn fast_len(&self) -> nat {
        (**self).fast_len()
    }

    open spec fn encodable(&self) -> bool {
        (**self).encodable()
    }

    open spec fn wire(&self) -> Seq<u8> {
        (**self).wire()
    }

    open spec fn fast_exact(&self) -> bool {
        (**self).fast_exact()
    }

    fn fast_size(&self) -> (r: usize) {
        (**self).fast_size()
    }

    fn size(&self) -> (r: Result<usize, CodecError>) {
        (**self).size()
    }

    fn encode_into(&self, out: &mut Vec<u8>) -> (r: Result<(), CodecError>) {
        (**self).encode_into(out)
    }
}

impl<T: Decode> Decode for Box<T> {
    open spec fn decode_error(input: Seq<u8>) -> CodecError {
        T::decode_error(input)
    }

    fn decode_with_len_from(reader: &mut ByteReader) -> (r: Result<(Self, usize), CodecError>) {
        match T::decode_with_len_from(reader) {
            Ok((x, n)) => Ok((Box::new(x), n)),
            Err(e) => {
                proof {
                    assert forall|v: Box<T>, rest: Seq<u8>| #[trigger] v.encodable() && old(reader)@ == #[trigger] (v.wire() + rest) implies false by {
                        let y: T = *v;
                        assert(y.encodable() && old(reader)@ == y.wire() + rest);
                    }
                }
                Err(e)
            },
        }
    }

    fn never_empty() -> (r: bool) {
        let r = T::never_empty();
        proof {
            if r {
                assert forall|v: Self| #[trigger] v.encodable() implies v.wire().len() >= 1 by {
                    assert((*v).encodable());
                }
            } else {
                let t = choose|t: T| #[trigger] t.encodable() && !(t.wire().len() >= 1);
                let b = Box::new(t);
                assert(b.encodable() && !(b.wire().len() >= 1));
            }
        }
        r
    }

    proof fn lemma_truncated(v: Self, k: nat) {
        T::lemma_truncated(*v, k);
    }

    proof fn lemma_prefix_unique(a: Self, b: Self, ra: Seq<u8>, rb: Seq<u8>) {
        T::lemma_prefix_unique(*a, *b, ra, rb);
    }
}

} // verus!
