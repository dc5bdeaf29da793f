//! Tuples: each field's bytes in order, with nothing between them.
use vstd::prelude::*;
use crate::reader::ByteReader;
use crate::{
    after, decodable, lemma_after, lemma_proper_prefix_undecodable, CodecError, Decode, Encode,
};

verus! {

impl<A: Encode, B: Encode> Encode for (A, B) {
    open spec fn fast_len(&self) -> nat {
        self.0.fast_len() + self.1.fast_len()
    }

    open spec fn encodable(&self) -> bool {
        self.0.encodable() && self.1.encodable()
    }

    open spec fn wire(&self) -> Seq<u8> {
        self.0.wire() + self.1.wire()
    }

    open spec fn fast_exact(&self) -> bool {
        self.0.fast_exact() && self.1.fast_exact()
    }

    fn fast_size(&self) -> (r: usize) {
        let mut total: usize = self.0.fast_size();
        proof {
            if self.encodable() && self.fast_exact() && self.wire().len() <= usize::MAX {
                assert(self.wire().len() >= self.0.wire().len());
                assert(total == self.0.wire().len());
            }
        }
        let f1 = self.1.fast_size();
        if f1 > usize::MAX - total {
            proof {
                if self.encodable() && self.fast_exact() && self.wire().len() <= usize::MAX {
                    assert(self.wire().len() >= (self.0.wire() + self.1.wire()).len());
                }
            }
            return 0;
        }
        total = total + f1;
        proof {
            if self.encodable() && self.fast_exact() && self.wire().len() <= usize::MAX {
                assert(self.wire().len() >= (self.0.wire() + self.1.wire()).len());
                assert(total == (self.0.wire() + self.1.wire()).len());
            }
        }
        total
    }

    fn size(&self) -> (r: Result<usize, CodecError>) {
        let mut total: usize = 0;
        match self.0.size() {
            Ok(n) => {
                total = n;
            },
            Err(e) => {
                proof {
                    assert(self.wire().len() >= self.0.wire().len());
                }
                return Err(e);
            },
        }
        match self.1.size() {
            Ok(n) => {
                if n > usize::MAX - total {
                    proof {
                        assert(self.wire().len() >= (self.0.wire() + self.1.wire()).len());
                    }
                    return Err(CodecError::InvalidInput);
                }
                total = total + n;
                proof {
                    assert(total == (self.0.wire() + self.1.wire()).len());
                }
            },
            Err(e) => {
                proof {
                    assert(self.wire().len() >= (self.0.wire() + self.1.wire()).len());
                }
                return Err(e);
            },
        }
        Ok(total)
    }

    fn encode_into(&self, out: &mut Vec<u8>) -> (r: Result<(), CodecError>) {
        let start_len = out.len();
        match self.0.encode_into(out) {
            Ok(()) => {},
            Err(e) => {
                out.truncate(start_len);
                return Err(e);
            },
        }
        assert(out@ =~= old(out)@ + (self.0.wire()));
        match self.1.encode_into(out) {
            Ok(()) => {},
            Err(e) => {
                out.truncate(start_len);
                return Err(e);
            },
        }
        assert(out@ =~= old(out)@ + (self.0.wire() + self.1.wire()));
        Ok(())
    }
}

impl<A: Decode, B: Decode> Decode for (A, B) {
    open spec fn decode_error(input: Seq<u8>) -> CodecError {
        if !decodable::<A>(input) {
            <A>::decode_error(input)
        } else {
            <B>::decode_error(after::<A>(input))
        }
    }

    fn decode_with_len_from(reader: &mut ByteReader) -> (r: Result<(Self, usize), CodecError>) {
        let ghost start = reader@;
        proof {
            reader.lemma_len_fits();
        }
        let ghost m0 = reader@;
        let (x0, n0) = match A::decode_with_len_from(reader) {
            Ok(p) => p,
            Err(e) => {
                proof {
                    assert forall|v: (A, B), rest: Seq<u8>| #[trigger] v.encodable() && start
                        == #[trigger] (v.wire() + rest) implies false by {
                        assert(m0 =~= v.0.wire() + (v.1.wire() + rest));
                        assert(v.0.encodable());
                    }
                }
                return Err(e);
            },
        };
        let ghost m1 = reader@;
        let (x1, n1) = match B::decode_with_len_from(reader) {
            Ok(p) => p,
            Err(e) => {
                proof {
                    lemma_after::<A>(m0, x0, m1);
                    assert forall|v: (A, B), rest: Seq<u8>| #[trigger] v.encodable() && start
                        == #[trigger] (v.wire() + rest) implies false by {
                        assert(m0 =~= v.0.wire() + (v.1.wire() + rest));
                        A::lemma_prefix_unique(x0, v.0, m1, v.1.wire() + rest);
                        assert(m1 =~= (x0.wire() + m1).skip(x0.wire().len() as int));
                        assert(m1 =~= (v.0.wire() + (v.1.wire() + rest)).skip(v.0.wire().len() as int));
                        assert(m1 =~= v.1.wire() + (rest));
                        assert(v.1.encodable());
                    }
                }
                return Err(e);
            },
        };
        let ghost m2 = reader@;
        let v = (x0, x1);
        assert(start =~= v.wire() + reader@);
        Ok((v, n0 + n1))
    }

    fn never_empty() -> (r: bool) {
        let r0 = <A>::never_empty();
        let r1 = <B>::never_empty();
        proof {
            if r0 || r1 {
                assert forall|v: Self| #[trigger] v.encodable() implies v.wire().len() >= 1 by {
                    if r0 {
                        assert(v.0.encodable());
                    }
                    if r1 {
                        assert(v.1.encodable());
                    }
                }
            } else {
                let w0 = choose|x: A| #[trigger] x.encodable() && !(x.wire().len() >= 1);
                let w1 = choose|x: B| #[trigger] x.encodable() && !(x.wire().len() >= 1);
                let w = (w0, w1);
                assert(w.encodable() && !(w.wire().len() >= 1));
            }
        }
        r0 || r1
    }

    proof fn lemma_truncated(v: Self, k: nat) {
        if (k as int) < v.0.wire().len() {
            assert(v.wire().take(k as int) =~= v.0.wire().take(k as int));
            lemma_proper_prefix_undecodable::<A>(v.0, (k as int) as nat);
            <A>::lemma_truncated(v.0, (k as int) as nat);
        } else {
            assert(v.wire().take(k as int) =~= v.0.wire() + (v.1.wire()).take(k as int - v.0.wire().len()));
            lemma_after::<A>(v.wire().take(k as int), v.0, (v.1.wire()).take(k as int - v.0.wire().len()));
            <B>::lemma_truncated(v.1, (k as int - v.0.wire().len()) as nat);
        }
    }

    proof fn lemma_prefix_unique(a: Self, b: Self, ra: Seq<u8>, rb: Seq<u8>) {
        assert(a.wire() + ra =~= a.0.wire() + (a.1.wire() + ra));
        assert(b.wire() + rb =~= b.0.wire() + (b.1.wire() + rb));
        assert(a.0.wire() + (a.1.wire() + ra) =~= b.0.wire() + (b.1.wire() + rb));
        A::lemma_prefix_unique(a.0, b.0, a.1.wire() + ra, b.1.wire() + rb);
        assert(a.1.wire() + ra =~= (a.0.wire() + (a.1.wire() + ra)).skip(a.0.wire().len() as int));
        assert(b.1.wire() + rb =~= (b.0.wire() + (b.1.wire() + rb)).skip(b.0.wire().len() as int));
        assert(a.1.wire() + ra =~= b.1.wire() + rb);
        B::lemma_prefix_unique(a.1, b.1, ra, rb);
        assert(ra =~= (a.1.wire() + ra).skip(a.1.wire().len() as int));
        assert(rb =~= (b.1.wire() + rb).skip(b.1.wire().len() as int));
    }
}

impl<A: Encode, B: Encode, C: Encode> Encode for (A, B, C) {
    open spec fn fast_len(&self) -> nat {
        self.0.fast_len() + self.1.fast_len() + self.2.fast_len()
    }

    open spec fn encodable(&self) -> bool {
        self.0.encodable() && self.1.encodable() && self.2.encodable()
    }

    open spec fn wire(&self) -> Seq<u8> {
        self.0.wire() + self.1.wire() + self.2.wire()
    }

    open spec fn fast_exact(&self) -> bool {
        self.0.fast_exact() && self.1.fast_exact() && self.2.fast_exact()
    }

    fn fast_size(&self) -> (r: usize) {
        let mut total: usize = self.0.fast_size();
        proof {
            if self.encodable() && self.fast_exact() && self.wire().len() <= usize::MAX {
                assert(self.wire().len() >= self.0.wire().len());
                assert(total == self.0.wire().len());
            }
        }
        let f1 = self.1.fast_size();
        if f1 > usize::MAX - total {
            proof {
                if self.encodable() && self.fast_exact() && self.wire().len() <= usize::MAX {
                    assert(self.wire().len() >= (self.0.wire() + self.1.wire()).len());
                }
            }
            return 0;
        }
        total = total + f1;
        proof {
            if self.encodable() && self.fast_exact() && self.wire().len() <= usize::MAX {
                assert(self.wire().len() >= (self.0.wire() + self.1.wire()).len());
                assert(total == (self.0.wire() + self.1.wire()).len());
            }
        }
        let f2 = self.2.fast_size();
        if f2 > usize::MAX - total {
            proof {
                if self.encodable() && self.fast_exact() && self.wire().len() <= usize::MAX {
                    assert(self.wire().len() >= (self.0.wire() + self.1.wire() + self.2.wire()).len());
                }
            }
            return 0;
        }
        total = total + f2;
        proof {
            if self.encodable() && self.fast_exact() && self.wire().len() <= usize::MAX {
                assert(self.wire().len() >= (self.0.wire() + self.1.wire() + self.2.wire()).len());
                assert(total == (self.0.wire() + self.1.wire() + self.2.wire()).len());
            }
        }
        total
    }

    fn size(&self) -> (r: Result<usize, CodecError>) {
        let mut total: usize = 0;
        match self.0.size() {
            Ok(n) => {
                total = n;
            },
            Err(e) => {
                proof {
                    assert(self.wire().len() >= self.0.wire().len());
                }
                return Err(e);
            },
        }
        match self.1.size() {
            Ok(n) => {
                if n > usize::MAX - total {
                    proof {
                        assert(self.wire().len() >= (self.0.wire() + self.1.wire()).len());
                    }
                    return Err(CodecError::InvalidInput);
                }
                total = total + n;
                proof {
                    assert(total == (self.0.wire() + self.1.wire()).len());
                }
            },
            Err(e) => {
                proof {
                    assert(self.wire().len() >= (self.0.wire() + self.1.wire()).len());
                }
                return Err(e);
            },
        }
        match self.2.size() {
            Ok(n) => {
                if n > usize::MAX - total {
                    proof {
                        assert(self.wire().len() >= (self.0.wire() + self.1.wire() + self.2.wire()).len());
                    }
                    return Err(CodecError::InvalidInput);
                }
                total = total + n;
                proof {
                    assert(total == (self.0.wire() + self.1.wire() + self.2.wire()).len());
                }
            },
            Err(e) => {
                proof {
                    assert(self.wire().len() >= (self.0.wire() + self.1.wire() + self.2.wire()).len());
                }
                return Err(e);
            },
        }
        Ok(total)
    }

    fn encode_into(&self, out: &mut Vec<u8>) -> (r: Result<(), CodecError>) {
        let start_len = out.len();
        match self.0.encode_into(out) {
            Ok(()) => {},
            Err(e) => {
                out.truncate(start_len);
                return Err(e);
            },
        }
        assert(out@ =~= old(out)@ + (self.0.wire()));
        match self.1.encode_into(out) {
            Ok(()) => {},
            Err(e) => {
                out.truncate(start_len);
                return Err(e);
            },
        }
        assert(out@ =~= old(out)@ + (self.0.wire() + self.1.wire()));
        match self.2.encode_into(out) {
            Ok(()) => {},
            Err(e) => {
                out.truncate(start_len);
                return Err(e);
            },
        }
        assert(out@ =~= old(out)@ + (self.0.wire() + self.1.wire() + self.2.wire()));
        Ok(())
    }
}

impl<A: Decode, B: Decode, C: Decode> Decode for (A, B, C) {
    open spec fn decode_error(input: Seq<u8>) -> CodecError {
        if !decodable::<A>(input) {
            <A>::decode_error(input)
        } else if !decodable::<B>(after::<A>(input)) {
            <B>::decode_error(after::<A>(input))
        } else {
            <C>::decode_error(after::<B>(after::<A>(input)))
        }
    }

    fn decode_with_len_from(reader: &mut ByteReader) -> (r: Result<(Self, usize), CodecError>) {
        let ghost start = reader@;
        proof {
            reader.lemma_len_fits();
        }
        let ghost m0 = reader@;
        let (x0, n0) = match A::decode_with_len_from(reader) {
            Ok(p) => p,
            Err(e) => {
                proof {
                    assert forall|v: (A, B, C), rest: Seq<u8>| #[trigger] v.encodable() && start
                        == #[trigger] (v.wire() + rest) implies false by {
                        assert(m0 =~= v.0.wire() + (v.1.wire() + v.2.wire() + rest));
                        assert(v.0.encodable());
                    }
                }
                return Err(e);
            },
        };
        let ghost m1 = reader@;
        let (x1, n1) = match B::decode_with_len_from(reader) {
            Ok(p) => p,
            Err(e) => {
                proof {
                    lemma_after::<A>(m0, x0, m1);
                    assert forall|v: (A, B, C), rest: Seq<u8>| #[trigger] v.encodable() && start
                        == #[trigger] (v.wire() + rest) implies false by {
                        assert(m0 =~= v.0.wire() + (v.1.wire() + v.2.wire() + rest));
                        A::lemma_prefix_unique(x0, v.0, m1, v.1.wire() + v.2.wire() + rest);
                        assert(m1 =~= (x0.wire() + m1).skip(x0.wire().len() as int));
                        assert(m1 =~= (v.0.wire() + (v.1.wire() + v.2.wire() + rest)).skip(v.0.wire().len() as int));
                        assert(m1 =~= v.1.wire() + (v.2.wire() + rest));
                        assert(v.1.encodable());
                    }
                }
                return Err(e);
            },
        };
        let ghost m2 = reader@;
        let (x2, n2) = match C::decode_with_len_from(reader) {
            Ok(p) => p,
            Err(e) => {
                proof {
                    lemma_after::<A>(m0, x0, m1);
                    lemma_after::<B>(m1, x1, m2);
                    assert forall|v: (A, B, C), rest: Seq<u8>| #[trigger] v.encodable() && start
                        == #[trigger] (v.wire() + rest) implies false by {
                        assert(m0 =~= v.0.wire() + (v.1.wire() + v.2.wire() + rest));
                        A::lemma_prefix_unique(x0, v.0, m1, v.1.wire() + v.2.wire() + rest);
                        assert(m1 =~= (x0.wire() + m1).skip(x0.wire().len() as int));
                        assert(m1 =~= (v.0.wire() + (v.1.wire() + v.2.wire() + rest)).skip(v.0.wire().len() as int));
                        assert(m1 =~= v.1.wire() + (v.2.wire() + rest));
                        B::lemma_prefix_unique(x1, v.1, m2, v.2.wire() + rest);
                        assert(m2 =~= (x1.wire() + m2).skip(x1.wire().len() as int));
                        assert(m2 =~= (v.1.wire() + (v.2.wire() + rest)).skip(v.1.wire().len() as int));
                        assert(m2 =~= v.2.wire() + (rest));
                        assert(v.2.encodable());
                    }
                }
                return Err(e);
            },
        };
        let ghost m3 = reader@;
        let v = (x0, x1, x2);
        assert(start =~= v.wire() + reader@);
        Ok((v, n0 + n1 + n2))
    }

    fn never_empty() -> (r: bool) {
        let r0 = <A>::never_empty();
        let r1 = <B>::never_empty();
        let r2 = <C>::never_empty();
        proof {
            if r0 || r1 || r2 {
                assert forall|v: Self| #[trigger] v.encodable() implies v.wire().len() >= 1 by {
                    if r0 {
                        assert(v.0.encodable());
                    }
                    if r1 {
                        assert(v.1.encodable());
                    }
                    if r2 {
                        assert(v.2.encodable());
                    }
                }
            } else {
                let w0 = choose|x: A| #[trigger] x.encodable() && !(x.wire().len() >= 1);
                let w1 = choose|x: B| #[trigger] x.encodable() && !(x.wire().len() >= 1);
                let w2 = choose|x: C| #[trigger] x.encodable() && !(x.wire().len() >= 1);
                let w = (w0, w1, w2);
                assert(w.encodable() && !(w.wire().len() >= 1));
            }
        }
        r0 || r1 || r2
    }

    proof fn lemma_truncated(v: Self, k: nat) {
        if (k as int) < v.0.wire().len() {
            assert(v.wire().take(k as int) =~= v.0.wire().take(k as int));
            lemma_proper_prefix_undecodable::<A>(v.0, (k as int) as nat);
            <A>::lemma_truncated(v.0, (k as int) as nat);
        } else {
            assert(v.wire().take(k as int) =~= v.0.wire() + (v.1.wire() + v.2.wire()).take(k as int - v.0.wire().len()));
            lemma_after::<A>(v.wire().take(k as int), v.0, (v.1.wire() + v.2.wire()).take(k as int - v.0.wire().len()));
            if (k as int - v.0.wire().len()) < v.1.wire().len() {
                assert((v.1.wire() + v.2.wire()).take(k as int - v.0.wire().len()) =~= v.1.wire().take(k as int - v.0.wire().len()));
                lemma_proper_prefix_undecodable::<B>(v.1, (k as int - v.0.wire().len()) as nat);
                <B>::lemma_truncated(v.1, (k as int - v.0.wire().len()) as nat);
            } else {
                assert((v.1.wire() + v.2.wire()).take(k as int - v.0.wire().len()) =~= v.1.wire() + (v.2.wire()).take(k as int - v.0.wire().len() - v.1.wire().len()));
                lemma_after::<B>((v.1.wire() + v.2.wire()).take(k as int - v.0.wire().len()), v.1, (v.2.wire()).take(k as int - v.0.wire().len() - v.1.wire().len()));
                <C>::lemma_truncated(v.2, (k as int - v.0.wire().len() - v.1.wire().len()) as nat);
            }
        }
    }

    proof fn lemma_prefix_unique(a: Self, b: Self, ra: Seq<u8>, rb: Seq<u8>) {
        assert(a.wire() + ra =~= a.0.wire() + (a.1.wire() + a.2.wire() + ra));
        assert(b.wire() + rb =~= b.0.wire() + (b.1.wire() + b.2.wire() + rb));
        assert(a.0.wire() + (a.1.wire() + a.2.wire() + ra) =~= b.0.wire() + (b.1.wire() + b.2.wire() + rb));
        A::lemma_prefix_unique(a.0, b.0, a.1.wire() + a.2.wire() + ra, b.1.wire() + b.2.wire() + rb);
        assert(a.1.wire() + a.2.wire() + ra =~= (a.0.wire() + (a.1.wire() + a.2.wire() + ra)).skip(a.0.wire().len() as int));
        assert(b.1.wire() + b.2.wire() + rb =~= (b.0.wire() + (b.1.wire() + b.2.wire() + rb)).skip(b.0.wire().len() as int));
        assert(a.1.wire() + a.2.wire() + ra =~= a.1.wire() + (a.2.wire() + ra));
        assert(b.1.wire() + b.2.wire() + rb =~= b.1.wire() + (b.2.wire() + rb));
        assert(a.1.wire() + (a.2.wire() + ra) =~= b.1.wire() + (b.2.wire() + rb));
        B::lemma_prefix_unique(a.1, b.1, a.2.wire() + ra, b.2.wire() + rb);
        assert(a.2.wire() + ra =~= (a.1.wire() + (a.2.wire() + ra)).skip(a.1.wire().len() as int));
        assert(b.2.wire() + rb =~= (b.1.wire() + (b.2.wire() + rb)).skip(b.1.wire().len() as int));
        assert(a.2.wire() + ra =~= b.2.wire() + rb);
        C::lemma_prefix_unique(a.2, b.2, ra, rb);
        assert(ra =~= (a.2.wire() + ra).skip(a.2.wire().len() as int));
        assert(rb =~= (b.2.wire() + rb).skip(b.2.wire().len() as int));
    }
}

impl<A: Encode, B: Encode, C: Encode, D: Encode> Encode for (A, B, C, D) {
    open spec fn fast_len(&self) -> nat {
        self.0.fast_len() + self.1.fast_len() + self.2.fast_len() + self.3.fast_len()
    }

    open spec fn encodable(&self) -> bool {
        self.0.encodable() && self.1.encodable() && self.2.encodable() && self.3.encodable()
    }

    open spec fn wire(&self) -> Seq<u8> {
        self.0.wire() + self.1.wire() + self.2.wire() + self.3.wire()
    }

    open spec fn fast_exact(&self) -> bool {
        self.0.fast_exact() && self.1.fast_exact() && self.2.fast_exact() && self.3.fast_exact()
    }

    fn fast_size(&self) -> (r: usize) {
        let mut total: usize = self.0.fast_size();
        proof {
            if self.encodable() && self.fast_exact() && self.wire().len() <= usize::MAX {
                assert(self.wire().len() >= self.0.wire().len());
                assert(total == self.0.wire().len());
            }
        }
        let f1 = self.1.fast_size();
        if f1 > usize::MAX - total {
            proof {
                if self.encodable() && self.fast_exact() && self.wire().len() <= usize::MAX {
                    assert(self.wire().len() >= (self.0.wire() + self.1.wire()).len());
                }
            }
            return 0;
        }
        total = total + f1;
        proof {
            if self.encodable() && self.fast_exact() && self.wire().len() <= usize::MAX {
                assert(self.wire().len() >= (self.0.wire() + self.1.wire()).len());
                assert(total == (self.0.wire() + self.1.wire()).len());
            }
        }
        let f2 = self.2.fast_size();
        if f2 > usize::MAX - total {
            proof {
                if self.encodable() && self.fast_exact() && self.wire().len() <= usize::MAX {
                    assert(self.wire().len() >= (self.0.wire() + self.1.wire() + self.2.wire()).len());
                }
            }
            return 0;
        }
        total = total + f2;
        proof {
            if self.encodable() && self.fast_exact() && self.wire().len() <= usize::MAX {
                assert(self.wire().len() >= (self.0.wire() + self.1.wire() + self.2.wire()).len());
                assert(total == (self.0.wire() + self.1.wire() + self.2.wire()).len());
            }
        }
        let f3 = self.3.fast_size();
        if f3 > usize::MAX - total {
            proof {
                if self.encodable() && self.fast_exact() && self.wire().len() <= usize::MAX {
                    assert(self.wire().len() >= (self.0.wire() + self.1.wire() + self.2.wire() + self.3.wire()).len());
                }
            }
            return 0;
        }
        total = total + f3;
        proof {
            if self.encodable() && self.fast_exact() && self.wire().len() <= usize::MAX {
                assert(self.wire().len() >= (self.0.wire() + self.1.wire() + self.2.wire() + self.3.wire()).len());
                assert(total == (self.0.wire() + self.1.wire() + self.2.wire() + self.3.wire()).len());
            }
        }
        total
    }

    fn size(&self) -> (r: Result<usize, CodecError>) {
        let mut total: usize = 0;
        match self.0.size() {
            Ok(n) => {
                total = n;
            },
            Err(e) => {
                proof {
                    assert(self.wire().len() >= self.0.wire().len());
                }
                return Err(e);
            },
        }
        match self.1.size() {
            Ok(n) => {
                if n > usize::MAX - total {
                    proof {
                        assert(self.wire().len() >= (self.0.wire() + self.1.wire()).len());
                    }
                    return Err(CodecError::InvalidInput);
                }
                total = total + n;
                proof {
                    assert(total == (self.0.wire() + self.1.wire()).len());
                }
            },
            Err(e) => {
                proof {
                    assert(self.wire().len() >= (self.0.wire() + self.1.wire()).len());
                }
                return Err(e);
            },
        }
        match self.2.size() {
            Ok(n) => {
                if n > usize::MAX - total {
                    proof {
                        assert(self.wire().len() >= (self.0.wire() + self.1.wire() + self.2.wire()).len());
                    }
                    return Err(CodecError::InvalidInput);
                }
                total = total + n;
                proof {
                    assert(total == (self.0.wire() + self.1.wire() + self.2.wire()).len());
                }
            },
            Err(e) => {
                proof {
                    assert(self.wire().len() >= (self.0.wire() + self.1.wire() + self.2.wire()).len());
                }
                return Err(e);
            },
        }
        match self.3.size() {
            Ok(n) => {
                if n > usize::MAX - total {
                    proof {
                        assert(self.wire().len() >= (self.0.wire() + self.1.wire() + self.2.wire() + self.3.wire()).len());
                    }
                    return Err(CodecError::InvalidInput);
                }
                total = total + n;
                proof {
                    assert(total == (self.0.wire() + self.1.wire() + self.2.wire() + self.3.wire()).len());
                }
            },
            Err(e) => {
                proof {
                    assert(self.wire().len() >= (self.0.wire() + self.1.wire() + self.2.wire() + self.3.wire()).len());
                }
                return Err(e);
            },
        }
        Ok(total)
    }

    fn encode_into(&self, out: &mut Vec<u8>) -> (r: Result<(), CodecError>) {
        let start_len = out.len();
        match self.0.encode_into(out) {
            Ok(()) => {},
            Err(e) => {
                out.truncate(start_len);
                return Err(e);
            },
        }
        assert(out@ =~= old(out)@ + (self.0.wire()));
        match self.1.encode_into(out) {
            Ok(()) => {},
            Err(e) => {
                out.truncate(start_len);
                return Err(e);
            },
        }
        assert(out@ =~= old(out)@ + (self.0.wire() + self.1.wire()));
        match self.2.encode_into(out) {
            Ok(()) => {},
            Err(e) => {
                out.truncate(start_len);
                return Err(e);
            },
        }
        assert(out@ =~= old(out)@ + (self.0.wire() + self.1.wire() + self.2.wire()));
        match self.3.encode_into(out) {
            Ok(()) => {},
            Err(e) => {
                out.truncate(start_len);
                return Err(e);
            },
        }
        assert(out@ =~= old(out)@ + (self.0.wire() + self.1.wire() + self.2.wire() + self.3.wire()));
        Ok(())
    }
}

impl<A: Decode, B: Decode, C: Decode, D: Decode> Decode for (A, B, C, D) {
    open spec fn decode_error(input: Seq<u8>) -> CodecError {
        if !decodable::<A>(input) {
            <A>::decode_error(input)
        } else if !decodable::<B>(after::<A>(input)) {
            <B>::decode_error(after::<A>(input))
        } else if !decodable::<C>(after::<B>(after::<A>(input))) {
            <C>::decode_error(after::<B>(after::<A>(input)))
        } else {
            <D>::decode_error(after::<C>(after::<B>(after::<A>(input))))
        }
    }

    fn decode_with_len_from(reader: &mut ByteReader) -> (r: Result<(Self, usize), CodecError>) {
        let ghost start = reader@;
        proof {
            reader.lemma_len_fits();
        }
        let ghost m0 = reader@;
        let (x0, n0) = match A::decode_with_len_from(reader) {
            Ok(p) => p,
            Err(e) => {
                proof {
                    assert forall|v: (A, B, C, D), rest: Seq<u8>| #[trigger] v.encodable() && start
                        == #[trigger] (v.wire() + rest) implies false by {
                        assert(m0 =~= v.0.wire() + (v.1.wire() + v.2.wire() + v.3.wire() + rest));
                        assert(v.0.encodable());
                    }
                }
                return Err(e);
            },
        };
        let ghost m1 = reader@;
        let (x1, n1) = match B::decode_with_len_from(reader) {
            Ok(p) => p,
            Err(e) => {
                proof {
                    lemma_after::<A>(m0, x0, m1);
                    assert forall|v: (A, B, C, D), rest: Seq<u8>| #[trigger] v.encodable() && start
                        == #[trigger] (v.wire() + rest) implies false by {
                        assert(m0 =~= v.0.wire() + (v.1.wire() + v.2.wire() + v.3.wire() + rest));
                        A::lemma_prefix_unique(x0, v.0, m1, v.1.wire() + v.2.wire() + v.3.wire() + rest);
                        assert(m1 =~= (x0.wire() + m1).skip(x0.wire().len() as int));
                        assert(m1 =~= (v.0.wire() + (v.1.wire() + v.2.wire() + v.3.wire() + rest)).skip(v.0.wire().len() as int));
                        assert(m1 =~= v.1.wire() + (v.2.wire() + v.3.wire() + rest));
                        assert(v.1.encodable());
                    }
                }
                return Err(e);
            },
        };
        let ghost m2 = reader@;
        let (x2, n2) = match C::decode_with_len_from(reader) {
            Ok(p) => p,
            Err(e) => {
                proof {
                    lemma_after::<A>(m0, x0, m1);
                    lemma_after::<B>(m1, x1, m2);
                    assert forall|v: (A, B, C, D), rest: Seq<u8>| #[trigger] v.encodable() && start
                        == #[trigger] (v.wire() + rest) implies false by {
                        assert(m0 =~= v.0.wire() + (v.1.wire() + v.2.wire() + v.3.wire() + rest));
                        A::lemma_prefix_unique(x0, v.0, m1, v.1.wire() + v.2.wire() + v.3.wire() + rest);
                        assert(m1 =~= (x0.wire() + m1).skip(x0.wire().len() as int));
                        assert(m1 =~= (v.0.wire() + (v.1.wire() + v.2.wire() + v.3.wire() + rest)).skip(v.0.wire().len() as int));
                        assert(m1 =~= v.1.wire() + (v.2.wire() + v.3.wire() + rest));
                        B::lemma_prefix_unique(x1, v.1, m2, v.2.wire() + v.3.wire() + rest);
                        assert(m2 =~= (x1.wire() + m2).skip(x1.wire().len() as int));
                        assert(m2 =~= (v.1.wire() + (v.2.wire() + v.3.wire() + rest)).skip(v.1.wire().len() as int));
                        assert(m2 =~= v.2.wire() + (v.3.wire() + rest));
                        assert(v.2.encodable());
                    }
                }
                return Err(e);
            },
        };
        let ghost m3 = reader@;
        let (x3, n3) = match D::decode_with_len_from(reader) {
            Ok(p) => p,
            Err(e) => {
                proof {
                    lemma_after::<A>(m0, x0, m1);
                    lemma_after::<B>(m1, x1, m2);
                    lemma_after::<C>(m2, x2, m3);
                    assert forall|v: (A, B, C, D), rest: Seq<u8>| #[trigger] v.encodable() && start
                        == #[trigger] (v.wire() + rest) implies false by {
                        assert(m0 =~= v.0.wire() + (v.1.wire() + v.2.wire() + v.3.wire() + rest));
                        A::lemma_prefix_unique(x0, v.0, m1, v.1.wire() + v.2.wire() + v.3.wire() + rest);
                        assert(m1 =~= (x0.wire() + m1).skip(x0.wire().len() as int));
                        assert(m1 =~= (v.0.wire() + (v.1.wire() + v.2.wire() + v.3.wire() + rest)).skip(v.0.wire().len() as int));
                        assert(m1 =~= v.1.wire() + (v.2.wire() + v.3.wire() + rest));
                        B::lemma_prefix_unique(x1, v.1, m2, v.2.wire() + v.3.wire() + rest);
                        assert(m2 =~= (x1.wire() + m2).skip(x1.wire().len() as int));
                        assert(m2 =~= (v.1.wire() + (v.2.wire() + v.3.wire() + rest)).skip(v.1.wire().len() as int));
                        assert(m2 =~= v.2.wire() + (v.3.wire() + rest));
                        C::lemma_prefix_unique(x2, v.2, m3, v.3.wire() + rest);
                        assert(m3 =~= (x2.wire() + m3).skip(x2.wire().len() as int));
                        assert(m3 =~= (v.2.wire() + (v.3.wire() + rest)).skip(v.2.wire().len() as int));
                        assert(m3 =~= v.3.wire() + (rest));
                        assert(v.3.encodable());
                    }
                }
                return Err(e);
            },
        };
        let ghost m4 = reader@;
        let v = (x0, x1, x2, x3);
        assert(start =~= v.wire() + reader@);
        Ok((v, n0 + n1 + n2 + n3))
    }

    fn never_empty() -> (r: bool) {
        let r0 = <A>::never_empty();
        let r1 = <B>::never_empty();
        let r2 = <C>::never_empty();
        let r3 = <D>::never_empty();
        proof {
            if r0 || r1 || r2 || r3 {
                assert forall|v: Self| #[trigger] v.encodable() implies v.wire().len() >= 1 by {
                    if r0 {
                        assert(v.0.encodable());
                    }
                    if r1 {
                        assert(v.1.encodable());
                    }
                    if r2 {
                        assert(v.2.encodable());
                    }
                    if r3 {
                        assert(v.3.encodable());
                    }
                }
            } else {
                let w0 = choose|x: A| #[trigger] x.encodable() && !(x.wire().len() >= 1);
                let w1 = choose|x: B| #[trigger] x.encodable() && !(x.wire().len() >= 1);
                let w2 = choose|x: C| #[trigger] x.encodable() && !(x.wire().len() >= 1);
                let w3 = choose|x: D| #[trigger] x.encodable() && !(x.wire().len() >= 1);
                let w = (w0, w1, w2, w3);
                assert(w.encodable() && !(w.wire().len() >= 1));
            }
        }
        r0 || r1 || r2 || r3
    }

    proof fn lemma_truncated(v: Self, k: nat) {
        if (k as int) < v.0.wire().len() {
            assert(v.wire().take(k as int) =~= v.0.wire().take(k as int));
            lemma_proper_prefix_undecodable::<A>(v.0, (k as int) as nat);
            <A>::lemma_truncated(v.0, (k as int) as nat);
        } else {
            assert(v.wire().take(k as int) =~= v.0.wire() + (v.1.wire() + v.2.wire() + v.3.wire()).take(k as int - v.0.wire().len()));
            lemma_after::<A>(v.wire().take(k as int), v.0, (v.1.wire() + v.2.wire() + v.3.wire()).take(k as int - v.0.wire().len()));
            if (k as int - v.0.wire().len()) < v.1.wire().len() {
                assert((v.1.wire() + v.2.wire() + v.3.wire()).take(k as int - v.0.wire().len()) =~= v.1.wire().take(k as int - v.0.wire().len()));
                lemma_proper_prefix_undecodable::<B>(v.1, (k as int - v.0.wire().len()) as nat);
                <B>::lemma_truncated(v.1, (k as int - v.0.wire().len()) as nat);
            } else {
                assert((v.1.wire() + v.2.wire() + v.3.wire()).take(k as int - v.0.wire().len()) =~= v.1.wire() + (v.2.wire() + v.3.wire()).take(k as int - v.0.wire().len() - v.1.wire().len()));
                lemma_after::<B>((v.1.wire() + v.2.wire() + v.3.wire()).take(k as int - v.0.wire().len()), v.1, (v.2.wire() + v.3.wire()).take(k as int - v.0.wire().len() - v.1.wire().len()));
                if (k as int - v.0.wire().len() - v.1.wire().len()) < v.2.wire().len() {
                    assert((v.2.wire() + v.3.wire()).take(k as int - v.0.wire().len() - v.1.wire().len()) =~= v.2.wire().take(k as int - v.0.wire().len() - v.1.wire().len()));
                    lemma_proper_prefix_undecodable::<C>(v.2, (k as int - v.0.wire().len() - v.1.wire().len()) as nat);
                    <C>::lemma_truncated(v.2, (k as int - v.0.wire().len() - v.1.wire().len()) as nat);
                } else {
                    assert((v.2.wire() + v.3.wire()).take(k as int - v.0.wire().len() - v.1.wire().len()) =~= v.2.wire() + (v.3.wire()).take(k as int - v.0.wire().len() - v.1.wire().len() - v.2.wire().len()));
                    lemma_after::<C>((v.2.wire() + v.3.wire()).take(k as int - v.0.wire().len() - v.1.wire().len()), v.2, (v.3.wire()).take(k as int - v.0.wire().len() - v.1.wire().len() - v.2.wire().len()));
                    <D>::lemma_truncated(v.3, (k as int - v.0.wire().len() - v.1.wire().len() - v.2.wire().len()) as nat);
                }
            }
        }
    }

    proof fn lemma_prefix_unique(a: Self, b: Self, ra: Seq<u8>, rb: Seq<u8>) {
        assert(a.wire() + ra =~= a.0.wire() + (a.1.wire() + a.2.wire() + a.3.wire() + ra));
        assert(b.wire() + rb =~= b.0.wire() + (b.1.wire() + b.2.wire() + b.3.wire() + rb));
        assert(a.0.wire() + (a.1.wire() + a.2.wire() + a.3.wire() + ra) =~= b.0.wire() + (b.1.wire() + b.2.wire() + b.3.wire() + rb));
        A::lemma_prefix_unique(a.0, b.0, a.1.wire() + a.2.wire() + a.3.wire() + ra, b.1.wire() + b.2.wire() + b.3.wire() + rb);
        assert(a.1.wire() + a.2.wire() + a.3.wire() + ra =~= (a.0.wire() + (a.1.wire() + a.2.wire() + a.3.wire() + ra)).skip(a.0.wire().len() as int));
        assert(b.1.wire() + b.2.wire() + b.3.wire() + rb =~= (b.0.wire() + (b.1.wire() + b.2.wire() + b.3.wire() + rb)).skip(b.0.wire().len() as int));
        assert(a.1.wire() + a.2.wire() + a.3.wire() + ra =~= a.1.wire() + (a.2.wire() + a.3.wire() + ra));
        assert(b.1.wire() + b.2.wire() + b.3.wire() + rb =~= b.1.wire() + (b.2.wire() + b.3.wire() + rb));
        assert(a.1.wire() + (a.2.wire() + a.3.wire() + ra) =~= b.1.wire() + (b.2.wire() + b.3.wire() + rb));
        B::lemma_prefix_unique(a.1, b.1, a.2.wire() + a.3.wire() + ra, b.2.wire() + b.3.wire() + rb);
        assert(a.2.wire() + a.3.wire() + ra =~= (a.1.wire() + (a.2.wire() + a.3.wire() + ra)).skip(a.1.wire().len() as int));
        assert(b.2.wire() + b.3.wire() + rb =~= (b.1.wire() + (b.2.wire() + b.3.wire() + rb)).skip(b.1.wire().len() as int));
        assert(a.2.wire() + a.3.wire() + ra =~= a.2.wire() + (a.3.wire() + ra));
        assert(b.2.wire() + b.3.wire() + rb =~= b.2.wire() + (b.3.wire() + rb));
        assert(a.2.wire() + (a.3.wire() + ra) =~= b.2.wire() + (b.3.wire() + rb));
        C::lemma_prefix_unique(a.2, b.2, a.3.wire() + ra, b.3.wire() + rb);
        assert(a.3.wire() + ra =~= (a.2.wire() + (a.3.wire() + ra)).skip(a.2.wire().len() as int));
        assert(b.3.wire() + rb =~= (b.2.wire() + (b.3.wire() + rb)).skip(b.2.wire().len() as int));
        assert(a.3.wire() + ra =~= b.3.wire() + rb);
        D::lemma_prefix_unique(a.3, b.3, ra, rb);
        assert(ra =~= (a.3.wire() + ra).skip(a.3.wire().len() as int));
        assert(rb =~= (b.3.wire() + rb).skip(b.3.wire().len() as int));
    }
}

} // verus!
