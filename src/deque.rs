//! Double-ended queues: the same layout as sequences, front to back.
use vstd::prelude::*;
use std::collections::VecDeque;
use crate::collections::{
    all_encodable, collection_error, collection_wire, entries_decodable, lemma_count_decodable,
    lemma_factor_bound, lemma_seq_truncated, lemma_seq_wire_at_least_count, lemma_seq_wire_front,
    lemma_seq_wire_holds, lemma_seq_wire_prefix, lemma_seq_wire_push, lemma_seq_wire_uniform_len,
    len_prefix, seq_error, seq_wire, uniform_sized,
};
use crate::le::{
    le_value, lemma_le_bytes_injective, lemma_le_bytes_len, lemma_le_value_of_bytes, pow256,
    write_le,
};
use crate::reader::ByteReader;
use crate::{lemma_after, CodecError, Decode, Encode, MAX_LEN};

verus! {

broadcast use vstd::std_specs::vecdeque::group_vec_dequeue_axioms;

/// A double-ended queue has the layout of a sequence, front to back.
impl<T: Encode> Encode for VecDeque<T> {
    open spec fn fast_len(&self) -> nat {
        if self@.len() > MAX_LEN {
            0
        } else if self@.len() == 0 {
            2
        } else {
            2 + self@.len() * self@[0].fast_len()
        }
    }

    open spec fn encodable(&self) -> bool {
        self@.len() <= MAX_LEN && all_encodable(self@)
    }

    open spec fn wire(&self) -> Seq<u8> {
        collection_wire(self@)
    }

    open spec fn fast_exact(&self) -> bool {
        uniform_sized(self@)
    }

    /// Two bytes plus the first entry's estimate times the count; `0` over the cap
    /// or where the product does not fit.
    fn fast_size(&self) -> (r: usize) {
        let len = self.len();
        proof {
            lemma_le_bytes_len(len as nat, 2);
        }
        if len > MAX_LEN {
            0
        } else if len == 0 {
            2
        } else {
            let f = self[0].fast_size();
            if f > 0 && len > (usize::MAX - 2) / f {
                proof {
                    if self.fast_len() <= usize::MAX {
                        lemma_factor_bound(len as int, self@[0].fast_len() as int, usize::MAX - 2);
                        assert(false) by (nonlinear_arith)
                            requires
                                f > 0,
                                len > (usize::MAX - 2) / f as int,
                                2 + len * f <= usize::MAX,
                        ;
                    }
                    if self.encodable() && self.fast_exact() && self.wire().len() <= usize::MAX {
                        lemma_seq_wire_uniform_len(self@);
                        lemma_seq_wire_holds(self@, 0);
                        assert(self@[0].encodable() && self@[0].fast_exact());
                        assert(false) by (nonlinear_arith)
                            requires
                                f > 0,
                                len > (usize::MAX - 2) / f as int,
                                2 + len * f <= usize::MAX,
                        ;
                    }
                }
                0
            } else {
                proof {
                    assert(len * f <= usize::MAX - 2) by (nonlinear_arith)
                        requires
                            f == 0 || len <= (usize::MAX - 2) / f as int,
                    ;
                    if self.fast_len() <= usize::MAX {
                        lemma_factor_bound(len as int, self@[0].fast_len() as int, usize::MAX - 2);
                    }
                    if self.encodable() && self.fast_exact() && self.wire().len() <= usize::MAX {
                        lemma_seq_wire_uniform_len(self@);
                        lemma_seq_wire_holds(self@, 0);
                        assert(self@[0].encodable() && self@[0].fast_exact());
                    }
                }
                len * f + 2
            }
        }
    }

    fn size(&self) -> (r: Result<usize, CodecError>) {
        let len = self.len();
        proof {
            lemma_le_bytes_len(len as nat, 2);
        }
        if len > MAX_LEN {
            return Err(CodecError::InvalidInput);
        }
        let mut total: usize = 2;
        let mut i: usize = 0;
        while i < len
            invariant
                len == self@.len(),
                len_prefix(len as nat).len() == 2,
                i <= len,
                all_encodable(self@.take(i as int)),
                total == 2 + seq_wire(self@.take(i as int)).len(),
            decreases len - i,
        {
            proof {
                lemma_seq_wire_holds(self@, i as int);
                assert(self@.take(i + 1) =~= self@.take(i as int).push(self@[i as int]));
                lemma_seq_wire_push(self@.take(i as int), self@[i as int]);
            }
            match self[i].size() {
                Ok(n) => {
                    if n > usize::MAX - total {
                        return Err(CodecError::InvalidInput);
                    }
                    total = total + n;
                },
                Err(e) => {
                    return Err(e);
                },
            }
            i = i + 1;
        }
        assert(self@.take(len as int) =~= self@);
        Ok(total)
    }

    fn encode_into(&self, out: &mut Vec<u8>) -> (r: Result<(), CodecError>) {
        let start_len = out.len();
        let len = self.len();
        if len > MAX_LEN {
            return Err(CodecError::InvalidInput);
        }
        write_le(out, len as u128, 2);
        let mut i: usize = 0;
        while i < len
            invariant
                start_len == old(out)@.len(),
                len == self@.len(),
                i <= len,
                all_encodable(self@.take(i as int)),
                out@ == old(out)@ + len_prefix(len as nat) + seq_wire(self@.take(i as int)),
            decreases len - i,
        {
            let ghost before = out@;
            match self[i].encode_into(out) {
                Ok(()) => {},
                Err(e) => {
                    out.truncate(start_len);
                    return Err(e);
                },
            }
            proof {
                assert(self@.take(i + 1) =~= self@.take(i as int).push(self@[i as int]));
                lemma_seq_wire_push(self@.take(i as int), self@[i as int]);
                assert(out@ =~= old(out)@ + len_prefix(len as nat) + seq_wire(self@.take(i + 1)));
            }
            i = i + 1;
        }
        assert(self@.take(len as int) =~= self@);
        assert(out@ =~= old(out)@ + self.wire());
        Ok(())
    }
}

impl<T: Decode> Decode for VecDeque<T> {
    open spec fn decode_error(input: Seq<u8>) -> CodecError {
        collection_error::<T>(input)
    }

    /// Fails with `collection_error`, as a sequence does.
    fn decode_with_len_from(reader: &mut ByteReader) -> (r: Result<(Self, usize), CodecError>)
        ensures
            r is Err ==> !entries_decodable::<T>(old(reader)@),
            old(reader)@.len() < 2 ==> r == Err::<(VecDeque<T>, usize), CodecError>(
                CodecError::UnexpectedEof,
            ),
            old(reader)@.len() >= 2 && le_value(old(reader)@.take(2)) > old(reader)@.len() - 2
                && (forall|x: T| #[trigger] x.encodable() ==> x.wire().len() >= 1) ==> r == Err::<
                (VecDeque<T>, usize),
                CodecError,
            >(CodecError::UnexpectedEof),
    {
        let ghost start = reader@;
        proof {
            reader.lemma_len_fits();
        }
        let count = match u16::decode_with_len_from(reader) {
            Ok((c, _)) => c,
            Err(e) => {
                proof {
                    assert forall|e: Seq<T>, rest: Seq<u8>| e.len() <= MAX_LEN && all_encodable(e) && start
                        == #[trigger] (collection_wire(e) + rest) implies false by {
                        lemma_count_decodable(start, e, rest);
                    }
                }
                return Err(e);
            },
        };
        let ghost prefix = count.wire();
        proof {
            lemma_le_bytes_len(count as nat, 2);
            reveal_with_fuel(pow256, 3);
            lemma_le_value_of_bytes(count as nat, 2);
            assert(reader@ =~= start.skip(2));
            assert(prefix =~= start.take(2));
        }
        if count as usize > reader.remaining() && T::never_empty() {
            proof {
                assert forall|e: Seq<T>, rest: Seq<u8>| e.len() <= MAX_LEN && all_encodable(e) && start
                    == #[trigger] (collection_wire(e) + rest) implies false by {
                    lemma_le_bytes_len(e.len(), 2);
                    assert(len_prefix(e.len()) =~= start.take(2));
                    lemma_le_bytes_injective(e.len(), count as nat, 2);
                    lemma_seq_wire_at_least_count(e);
                }
            }
            return Err(CodecError::UnexpectedEof);
        }
        let mut elems: VecDeque<T> = VecDeque::new();
        let mut read: usize = 2;
        while elems.len() < count as usize
            invariant
                start == old(reader)@,
                le_value(start.take(2)) == count,
                collection_error::<T>(start) == seq_error::<T>(
                    reader@,
                    (count - elems@.len()) as nat,
                ),
                count <= start.len() - 2 || !(forall|x: T| #[trigger] x.encodable() ==> x.wire().len()
                    >= 1),
                start == prefix + seq_wire(elems@) + reader@,
                prefix == len_prefix(count as nat),
                prefix.len() == 2,
                elems@.len() <= count,
                all_encodable(elems@),
                read == 2 + seq_wire(elems@).len(),
                start.len() <= usize::MAX,
            decreases count - elems@.len(),
        {
            let ghost cur = reader@;
            match T::decode_with_len_from(reader) {
                Ok((x, n)) => {
                    proof {
                        lemma_seq_wire_push(elems@, x);
                        lemma_after::<T>(cur, x, reader@);
                    }
                    elems.push_back(x);
                    assert(start =~= prefix + seq_wire(elems@) + reader@);
                    read = read + n;
                },
                Err(e) => {
                    proof {
                        assert forall|e: Seq<T>, rest: Seq<u8>| e.len() <= MAX_LEN && all_encodable(e) && start
                            == #[trigger] (collection_wire(e) + rest) implies false by {
                            lemma_le_bytes_len(e.len(), 2);
                            assert(len_prefix(e.len()) =~= start.take(2));
                            assert(prefix =~= start.take(2));
                            reveal_with_fuel(pow256, 3);
                            lemma_le_bytes_injective(e.len(), count as nat, 2);
                            assert(seq_wire(elems@) + cur =~= start.skip(2));
                            assert(seq_wire(e) + rest =~= start.skip(2));
                            lemma_seq_wire_prefix(elems@, e, cur, rest);
                            let i = elems@.len() as int;
                            let tail = e.skip(i);
                            lemma_seq_wire_front(tail);
                            assert(tail[0] == e[i]);
                            assert(e[i].encodable());
                            assert(cur =~= e[i].wire() + (seq_wire(tail.skip(1)) + rest));
                        }
                    }
                    return Err(e);
                },
            }
        }
        assert(start =~= elems.wire() + reader@);
        Ok((elems, read))
    }

    fn never_empty() -> (r: bool) {
        proof {
            assert forall|v: Self| #[trigger] v.encodable() implies v.wire().len() >= 1 by {
                lemma_le_bytes_len(v@.len(), 2);
            }
        }
        true
    }

    proof fn lemma_truncated(v: Self, k: nat) {
        let p = v.wire().take(k as int);
        lemma_le_bytes_len(v@.len(), 2);
        if k >= 2 {
            reveal_with_fuel(pow256, 3);
            assert(p.take(2) =~= len_prefix(v@.len()));
            lemma_le_value_of_bytes(v@.len(), 2);
            assert(p.skip(2) =~= seq_wire(v@).take(k - 2));
            lemma_seq_truncated(v@, (k - 2) as nat);
        }
    }

    proof fn lemma_prefix_unique(a: Self, b: Self, ra: Seq<u8>, rb: Seq<u8>) {
        lemma_le_bytes_len(a@.len(), 2);
        lemma_le_bytes_len(b@.len(), 2);
        assert(len_prefix(a@.len()) =~= (a.wire() + ra).take(2));
        assert(len_prefix(b@.len()) =~= (b.wire() + rb).take(2));
        reveal_with_fuel(pow256, 3);
        lemma_le_bytes_injective(a@.len(), b@.len(), 2);
        assert(seq_wire(a@) + ra =~= (a.wire() + ra).skip(2));
        assert(seq_wire(b@) + rb =~= (b.wire() + rb).skip(2));
        lemma_seq_wire_prefix(a@, b@, ra, rb);
        assert(b@.skip(a@.len() as int) =~= Seq::<T>::empty());
        assert(ra =~= rb);
        assert(a.wire() =~= (a.wire() + ra).take(a.wire().len() as int));
        assert(b.wire() =~= (b.wire() + rb).take(b.wire().len() as int));
        assert(a.deep_view() =~= b.deep_view());
    }
}

} // verus!
