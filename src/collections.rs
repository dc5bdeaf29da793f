//! Length-prefixed sequences: a 16-bit little-endian count, then each entry's bytes.
use vstd::prelude::*;
use crate::le::{
    le_bytes, le_value, lemma_le_bytes_injective, lemma_le_bytes_len, lemma_le_value_of_bytes,
    pow256, write_le,
};
use crate::reader::ByteReader;
use crate::{
    after, decodable, lemma_after, lemma_proper_prefix_undecodable, CodecError, Decode, Encode, MAX_LEN,
};

verus! {

/// The bytes of the entries of `s`, one after another.
pub open spec fn seq_wire<T: Encode>(s: Seq<T>) -> Seq<u8>
    decreases s.len(),
{
    if s.len() == 0 {
        Seq::empty()
    } else {
        seq_wire(s.drop_last()) + s.last().wire()
    }
}

/// Every entry of `s` is encodable.
pub open spec fn all_encodable<T: Encode>(s: Seq<T>) -> bool {
    forall|i: int| 0 <= i < s.len() ==> #[trigger] s[i].encodable()
}

/// Every entry of `s` has an exact fast estimate and the encoded length of the first.
pub open spec fn uniform_sized<T: Encode>(s: Seq<T>) -> bool {
    forall|i: int|
        0 <= i < s.len() ==> #[trigger] s[i].fast_exact() && s[i].wire().len() == s[0].wire().len()
}

/// The two-byte count in front of a collection of `n` entries.
pub open spec fn len_prefix(n: nat) -> Seq<u8> {
    le_bytes(n, 2)
}

/// A collection's count and entries, as they stand on the wire.
pub open spec fn collection_wire<T: Encode>(s: Seq<T>) -> Seq<u8> {
    len_prefix(s.len()) + seq_wire(s)
}

pub proof fn lemma_seq_wire_push<T: Encode>(s: Seq<T>, x: T)
    ensures
        seq_wire(s.push(x)) == seq_wire(s) + x.wire(),
{
    assert(s.push(x).drop_last() =~= s);
}

pub proof fn lemma_seq_wire_concat<T: Encode>(a: Seq<T>, b: Seq<T>)
    ensures
        seq_wire(a + b) == seq_wire(a) + seq_wire(b),
    decreases b.len(),
{
    if b.len() == 0 {
        assert(a + b =~= a);
        assert(seq_wire(a) + seq_wire(b) =~= seq_wire(a));
    } else {
        lemma_seq_wire_concat(a, b.drop_last());
        assert((a + b).drop_last() =~= a + b.drop_last());
        assert(seq_wire(a + b) =~= seq_wire(a) + seq_wire(b));
    }
}

/// The entries' bytes split after the first entry.
pub proof fn lemma_seq_wire_front<T: Encode>(s: Seq<T>)
    requires
        s.len() > 0,
    ensures
        seq_wire(s) == s[0].wire() + seq_wire(s.skip(1)),
{
    assert(s =~= seq![s[0]] + s.skip(1));
    lemma_seq_wire_concat(seq![s[0]], s.skip(1));
    assert(seq_wire(seq![s[0]]) =~= s[0].wire()) by {
        reveal_with_fuel(seq_wire, 2);
        assert(seq![s[0]].drop_last() =~= Seq::<T>::empty());
    }
}

/// Two runs of entries that a common byte string starts with agree entry by entry,
/// as far as the shorter goes.
pub proof fn lemma_seq_wire_prefix<T: Decode>(a: Seq<T>, b: Seq<T>, ra: Seq<u8>, rb: Seq<u8>)
    requires
        a.len() <= b.len(),
        all_encodable(a),
        all_encodable(b),
        seq_wire(a) + ra == seq_wire(b) + rb,
    ensures
        forall|k: int| 0 <= k < a.len() ==> #[trigger] a[k].deep_view() == b[k].deep_view(),
        ra == seq_wire(b.skip(a.len() as int)) + rb,
    decreases a.len(),
{
    if a.len() == 0 {
        assert(seq_wire(a) =~= Seq::<u8>::empty());
        assert(b.skip(0) =~= b);
        assert(ra =~= seq_wire(a) + ra);
    } else {
        lemma_seq_wire_front(a);
        lemma_seq_wire_front(b);
        assert(a[0].wire() + (seq_wire(a.skip(1)) + ra) =~= seq_wire(a) + ra);
        assert(b[0].wire() + (seq_wire(b.skip(1)) + rb) =~= seq_wire(b) + rb);
        assert(a[0].encodable() && b[0].encodable());
        T::lemma_prefix_unique(a[0], b[0], seq_wire(a.skip(1)) + ra, seq_wire(b.skip(1)) + rb);
        let n = a[0].wire().len() as int;
        assert((a[0].wire() + (seq_wire(a.skip(1)) + ra)).skip(n) =~= seq_wire(a.skip(1)) + ra);
        assert((b[0].wire() + (seq_wire(b.skip(1)) + rb)).skip(n) =~= seq_wire(b.skip(1)) + rb);
        let a1 = a.skip(1);
        let b1 = b.skip(1);
        assert(all_encodable(a1)) by {
            assert forall|i: int| 0 <= i < a1.len() implies #[trigger] a1[i].encodable() by {
                assert(a1[i] == a[i + 1]);
            }
        }
        assert(all_encodable(b1)) by {
            assert forall|i: int| 0 <= i < b1.len() implies #[trigger] b1[i].encodable() by {
                assert(b1[i] == b[i + 1]);
            }
        }
        lemma_seq_wire_prefix(a1, b1, ra, rb);
        assert(b1.skip(a1.len() as int) =~= b.skip(a.len() as int));
        assert forall|k: int| 0 <= k < a.len() implies #[trigger] a[k].deep_view()
            == b[k].deep_view() by {
            if k > 0 {
                assert(a[k] == a1[k - 1]);
                assert(b[k] == b1[k - 1]);
            }
        }
    }
}

/// When every entry has the first entry's length, the entries take that length times their count.
pub proof fn lemma_seq_wire_uniform_len<T: Encode>(s: Seq<T>)
    requires
        s.len() > 0,
        uniform_sized(s),
    ensures
        seq_wire(s).len() == s.len() * s[0].wire().len(),
    decreases s.len(),
{
    let w = s[0].wire().len();
    let last = s.len() - 1;
    assert(s[last].fast_exact());
    assert(s[last].wire().len() == w);
    if s.len() > 1 {
        let t = s.drop_last();
        assert(uniform_sized(t)) by {
            assert forall|i: int| 0 <= i < t.len() implies #[trigger] t[i].fast_exact()
                && t[i].wire().len() == t[0].wire().len() by {
                assert(t[i] == s[i]);
                assert(s[i].fast_exact() && s[i].wire().len() == w);
            }
        }
        lemma_seq_wire_uniform_len(t);
        assert(t[0] == s[0]);
        assert(s.last() == s[last]);
        assert(seq_wire(s) == seq_wire(t) + s[last].wire());
        assert(seq_wire(s).len() == t.len() * w + w);
        assert((t.len() * w) + w == s.len() * w) by (nonlinear_arith)
            requires
                t.len() + 1 == s.len(),
        ;
        assert(seq_wire(s).len() == s.len() * w);
    } else {
        reveal_with_fuel(seq_wire, 2);
        assert(s.drop_last() =~= Seq::<T>::empty());
        assert(seq_wire(s) =~= s[0].wire());
        assert(s.len() * w == w) by (nonlinear_arith)
            requires
                s.len() == 1,
        ;
    }
}

/// The entries' bytes hold those of entry `i`, so they are at least as long.
pub proof fn lemma_seq_wire_holds<T: Encode>(s: Seq<T>, i: int)
    requires
        0 <= i < s.len(),
    ensures
        seq_wire(s).len() >= seq_wire(s.take(i)).len() + s[i].wire().len(),
{
    assert(s =~= s.take(i + 1) + s.skip(i + 1));
    lemma_seq_wire_concat(s.take(i + 1), s.skip(i + 1));
    assert(s.take(i + 1) =~= s.take(i).push(s[i]));
    lemma_seq_wire_push(s.take(i), s[i]);
}

/// When every entry takes a byte or more, the entries take at least as many bytes as
/// there are entries.
pub proof fn lemma_seq_wire_at_least_count<T: Encode>(s: Seq<T>)
    requires
        all_encodable(s),
        forall|x: T| #[trigger] x.encodable() ==> x.wire().len() >= 1,
    ensures
        seq_wire(s).len() >= s.len(),
    decreases s.len(),
{
    if s.len() > 0 {
        let t = s.drop_last();
        assert(all_encodable(t)) by {
            assert forall|i: int| 0 <= i < t.len() implies #[trigger] t[i].encodable() by {
                assert(t[i] == s[i]);
            }
        }
        lemma_seq_wire_at_least_count(t);
        assert(s[s.len() - 1].encodable());
    }
}

/// Input that ends inside the bytes of a run of entries fails, at the entry it
/// ends in, with `UnexpectedEof`.
pub proof fn lemma_seq_truncated<T: Decode>(s: Seq<T>, j: nat)
    requires
        all_encodable(s),
        j < seq_wire(s).len(),
    ensures
        seq_error::<T>(seq_wire(s).take(j as int), s.len()) == CodecError::UnexpectedEof,
    decreases s.len(),
{
    lemma_seq_wire_front(s);
    let x = s[0];
    let t = s.skip(1);
    assert(x.encodable());
    assert(all_encodable(t)) by {
        assert forall|i: int| 0 <= i < t.len() implies #[trigger] t[i].encodable() by {
            assert(t[i] == s[i + 1]);
        }
    }
    let p = seq_wire(s).take(j as int);
    if j < x.wire().len() {
        assert(p =~= x.wire().take(j as int));
        lemma_proper_prefix_undecodable::<T>(x, j);
        T::lemma_truncated(x, j);
    } else {
        let q = seq_wire(t).take(j - x.wire().len());
        assert(p =~= x.wire() + q);
        lemma_after::<T>(p, x, q);
        lemma_seq_truncated(t, (j - x.wire().len()) as nat);
    }
}

/// A product within a bound has each non-zero factor within it.
pub proof fn lemma_factor_bound(len: int, f: int, bound: int)
    requires
        len >= 1,
        f >= 0,
        len * f <= bound,
    ensures
        f <= bound,
{
    assert(f <= len * f) by (nonlinear_arith)
        requires
            len >= 1,
            f >= 0,
    ;
}

/// Some collection of entries of type `T` has its bytes at the front of `buf`.
pub proof fn lemma_count_decodable<T: Encode>(buf: Seq<u8>, v: Seq<T>, rest: Seq<u8>)
    requires
        v.len() <= MAX_LEN,
        buf == collection_wire(v) + rest,
    ensures
        decodable::<u16>(buf),
{
    let c = v.len() as u16;
    assert(buf =~= c.wire() + (seq_wire(v) + rest));
    assert(c.encodable());
}

/// Some run of at most `MAX_LEN` encodable entries of type `T` has its bytes, count
/// first, at the front of `buf`.
pub open spec fn entries_decodable<T: Encode>(buf: Seq<u8>) -> bool {
    exists|e: Seq<T>, rest: Seq<u8>|
        e.len() <= MAX_LEN && all_encodable(e) && buf == #[trigger] (collection_wire(e) + rest)
}

/// The map that inserting the entries of `e` in order into an empty map builds:
/// a later entry for a key replaces an earlier one.
pub open spec fn map_of<K, V>(e: Seq<(K, V)>) -> Map<K, V>
    decreases e.len(),
{
    if e.len() == 0 {
        Map::empty()
    } else {
        map_of(e.drop_last()).insert(e.last().0, e.last().1)
    }
}

/// The set that inserting the elements of `e` into an empty set builds.
pub open spec fn set_of<K>(e: Seq<K>) -> Set<K>
    decreases e.len(),
{
    if e.len() == 0 {
        Set::empty()
    } else {
        set_of(e.drop_last()).insert(e.last())
    }
}

/// The error that decoding `n` entries from the front of `buf` fails with: the
/// error of the first entry whose bytes are not there.
pub open spec fn seq_error<T: Decode>(buf: Seq<u8>, n: nat) -> CodecError
    decreases n,
{
    if n == 0 {
        CodecError::InvalidData
    } else if decodable::<T>(buf) {
        seq_error::<T>(after::<T>(buf), (n - 1) as nat)
    } else {
        T::decode_error(buf)
    }
}

/// The error that decoding a collection of `T` from the front of `input` fails
/// with: `UnexpectedEof` where the count is missing, or where it is above the
/// bytes after it and no entry is empty; else the error of the first entry that
/// cannot be read.
pub open spec fn collection_error<T: Decode>(input: Seq<u8>) -> CodecError {
    if input.len() < 2 {
        CodecError::UnexpectedEof
    } else if le_value(input.take(2)) > input.len() - 2 && (forall|x: T|
        #[trigger] x.encodable() ==> x.wire().len() >= 1) {
        CodecError::UnexpectedEof
    } else {
        seq_error::<T>(input.skip(2), le_value(input.take(2)))
    }
}

/// A sequence is its count, then its entries.
impl<T: Encode> Encode for Vec<T> {
    open spec fn fast_len(&self) -> nat {
        if self@.len() > MAX_LEN {
            0
        } else if self@.len() == 0 {
            2
        } else {
            2 + self@.len() * self@[0].fast_len()
        }
    }

    open spec fn encodable(&self) -> bool {
        self@.len() <= MAX_LEN && all_encodable(self@)
    }

    open spec fn wire(&self) -> Seq<u8> {
        collection_wire(self@)
    }

    open spec fn fast_exact(&self) -> bool {
        uniform_sized(self@)
    }

    /// Two bytes plus the first entry's estimate times the count; `0` over the cap
    /// or where the product does not fit.
    fn fast_size(&self) -> (r: usize) {
        let len = self.len();
        proof {
            lemma_le_bytes_len(len as nat, 2);
        }
        if len > MAX_LEN {
            0
        } else if len == 0 {
            2
        } else {
            let f = self[0].fast_size();
            if f > 0 && len > (usize::MAX - 2) / f {
                proof {
                    if self.fast_len() <= usize::MAX {
                        lemma_factor_bound(len as int, self@[0].fast_len() as int, usize::MAX - 2);
                        assert(false) by (nonlinear_arith)
                            requires
                                f > 0,
                                len > (usize::MAX - 2) / f as int,
                                2 + len * f <= usize::MAX,
                        ;
                    }
                    if self.encodable() && self.fast_exact() && self.wire().len() <= usize::MAX {
                        lemma_seq_wire_uniform_len(self@);
                        lemma_seq_wire_holds(self@, 0);
                        assert(self@[0].encodable() && self@[0].fast_exact());
                        assert(false) by (nonlinear_arith)
                            requires
                                f > 0,
                                len > (usize::MAX - 2) / f as int,
                                2 + len * f <= usize::MAX,
                        ;
                    }
                }
                0
            } else {
                proof {
                    assert(len * f <= usize::MAX - 2) by (nonlinear_arith)
                        requires
                            f == 0 || len <= (usize::MAX - 2) / f as int,
                    ;
                    if self.fast_len() <= usize::MAX {
                        lemma_factor_bound(len as int, self@[0].fast_len() as int, usize::MAX - 2);
                    }
                    if self.encodable() && self.fast_exact() && self.wire().len() <= usize::MAX {
                        lemma_seq_wire_uniform_len(self@);
                        lemma_seq_wire_holds(self@, 0);
                        assert(self@[0].encodable() && self@[0].fast_exact());
                    }
                }
                len * f + 2
            }
        }
    }

    fn size(&self) -> (r: Result<usize, CodecError>) {
        let len = self.len();
        proof {
            lemma_le_bytes_len(len as nat, 2);
        }
        if len > MAX_LEN {
            return Err(CodecError::InvalidInput);
        }
        let mut total: usize = 2;
        let mut i: usize = 0;
        while i < len
            invariant
                len == self@.len(),
                len_prefix(len as nat).len() == 2,
                i <= len,
                all_encodable(self@.take(i as int)),
                total == 2 + seq_wire(self@.take(i as int)).len(),
            decreases len - i,
        {
            proof {
                lemma_seq_wire_holds(self@, i as int);
                assert(self@.take(i + 1) =~= self@.take(i as int).push(self@[i as int]));
                lemma_seq_wire_push(self@.take(i as int), self@[i as int]);
            }
            match self[i].size() {
                Ok(n) => {
                    if n > usize::MAX - total {
                        return Err(CodecError::InvalidInput);
                    }
                    total = total + n;
                },
                Err(e) => {
                    return Err(e);
                },
            }
            i = i + 1;
        }
        assert(self@.take(len as int) =~= self@);
        Ok(total)
    }

    fn encode_into(&self, out: &mut Vec<u8>) -> (r: Result<(), CodecError>) {
        let start_len = out.len();
        let len = self.len();
        if len > MAX_LEN {
            return Err(CodecError::InvalidInput);
        }
        write_le(out, len as u128, 2);
        let mut i: usize = 0;
        while i < len
            invariant
                start_len == old(out)@.len(),
                len == self@.len(),
                i <= len,
                all_encodable(self@.take(i as int)),
                out@ == old(out)@ + len_prefix(len as nat) + seq_wire(self@.take(i as int)),
            decreases len - i,
        {
            let ghost before = out@;
            match self[i].encode_into(out) {
                Ok(()) => {},
                Err(e) => {
                    out.truncate(start_len);
                    return Err(e);
                },
            }
            proof {
                assert(self@.take(i + 1) =~= self@.take(i as int).push(self@[i as int]));
                lemma_seq_wire_push(self@.take(i as int), self@[i as int]);
                assert(out@ =~= old(out)@ + len_prefix(len as nat) + seq_wire(self@.take(i + 1)));
            }
            i = i + 1;
        }
        assert(self@.take(len as int) =~= self@);
        assert(out@ =~= old(out)@ + self.wire());
        Ok(())
    }
}

impl<T: Decode> Decode for Vec<T> {
    open spec fn decode_error(input: Seq<u8>) -> CodecError {
        collection_error::<T>(input)
    }

    /// Fails with `collection_error`: `UnexpectedEof` for a missing count, or a
    /// count above the bytes left where every entry takes a byte or more; else the
    /// error of the first entry that cannot be read.
    fn decode_with_len_from(reader: &mut ByteReader) -> (r: Result<(Self, usize), CodecError>)
        ensures
            r is Err ==> !entries_decodable::<T>(old(reader)@),
            old(reader)@.len() < 2 ==> r == Err::<(Vec<T>, usize), CodecError>(
                CodecError::UnexpectedEof,
            ),
            old(reader)@.len() >= 2 && le_value(old(reader)@.take(2)) > old(reader)@.len() - 2
                && (forall|x: T| #[trigger] x.encodable() ==> x.wire().len() >= 1) ==> r == Err::<
                (Vec<T>, usize),
                CodecError,
            >(CodecError::UnexpectedEof),
    {
        let ghost start = reader@;
        proof {
            reader.lemma_len_fits();
        }
        let count = match u16::decode_with_len_from(reader) {
            Ok((c, _)) => c,
            Err(e) => {
                proof {
                    assert forall|e: Seq<T>, rest: Seq<u8>| e.len() <= MAX_LEN && all_encodable(e) && start
                        == #[trigger] (collection_wire(e) + rest) implies false by {
                        lemma_count_decodable(start, e, rest);
                    }
                }
                return Err(e);
            },
        };
        let ghost prefix = count.wire();
        proof {
            lemma_le_bytes_len(count as nat, 2);
            reveal_with_fuel(pow256, 3);
            lemma_le_value_of_bytes(count as nat, 2);
            assert(reader@ =~= start.skip(2));
            assert(prefix =~= start.take(2));
        }
        if count as usize > reader.remaining() && T::never_empty() {
            proof {
                assert forall|e: Seq<T>, rest: Seq<u8>| e.len() <= MAX_LEN && all_encodable(e) && start
                    == #[trigger] (collection_wire(e) + rest) implies false by {
                    lemma_le_bytes_len(e.len(), 2);
                    assert(len_prefix(e.len()) =~= start.take(2));
                    lemma_le_bytes_injective(e.len(), count as nat, 2);
                    lemma_seq_wire_at_least_count(e);
                }
            }
            return Err(CodecError::UnexpectedEof);
        }
        let mut elems: Vec<T> = Vec::new();
        let mut read: usize = 2;
        while elems.len() < count as usize
            invariant
                start == old(reader)@,
                le_value(start.take(2)) == count,
                collection_error::<T>(start) == seq_error::<T>(
                    reader@,
                    (count - elems@.len()) as nat,
                ),
                count <= start.len() - 2 || !(forall|x: T| #[trigger] x.encodable() ==> x.wire().len()
                    >= 1),
                start == prefix + seq_wire(elems@) + reader@,
                prefix == len_prefix(count as nat),
                prefix.len() == 2,
                elems@.len() <= count,
                all_encodable(elems@),
                read == 2 + seq_wire(elems@).len(),
                start.len() <= usize::MAX,
            decreases count - elems@.len(),
        {
            let ghost cur = reader@;
            match T::decode_with_len_from(reader) {
                Ok((x, n)) => {
                    proof {
                        lemma_seq_wire_push(elems@, x);
                        lemma_after::<T>(cur, x, reader@);
                    }
                    elems.push(x);
                    assert(start =~= prefix + seq_wire(elems@) + reader@);
                    read = read + n;
                },
                Err(e) => {
                    proof {
                        assert forall|e: Seq<T>, rest: Seq<u8>| e.len() <= MAX_LEN && all_encodable(e) && start
                            == #[trigger] (collection_wire(e) + rest) implies false by {
                            lemma_le_bytes_len(e.len(), 2);
                            assert(len_prefix(e.len()) =~= start.take(2));
                            assert(prefix =~= start.take(2));
                            reveal_with_fuel(pow256, 3);
                            lemma_le_bytes_injective(e.len(), count as nat, 2);
                            assert(seq_wire(elems@) + cur =~= start.skip(2));
                            assert(seq_wire(e) + rest =~= start.skip(2));
                            lemma_seq_wire_prefix(elems@, e, cur, rest);
                            let i = elems@.len() as int;
                            let tail = e.skip(i);
                            lemma_seq_wire_front(tail);
                            assert(tail[0] == e[i]);
                            assert(e[i].encodable());
                            assert(cur =~= e[i].wire() + (seq_wire(tail.skip(1)) + rest));
                        }
                    }
                    return Err(e);
                },
            }
        }
        assert(start =~= elems.wire() + reader@);
        Ok((elems, read))
    }

    fn never_empty() -> (r: bool) {
        proof {
            assert forall|v: Self| #[trigger] v.encodable() implies v.wire().len() >= 1 by {
                lemma_le_bytes_len(v@.len(), 2);
            }
        }
        true
    }

    proof fn lemma_truncated(v: Self, k: nat) {
        let p = v.wire().take(k as int);
        lemma_le_bytes_len(v@.len(), 2);
        if k >= 2 {
            reveal_with_fuel(pow256, 3);
            assert(p.take(2) =~= len_prefix(v@.len()));
            lemma_le_value_of_bytes(v@.len(), 2);
            assert(p.skip(2) =~= seq_wire(v@).take(k - 2));
            lemma_seq_truncated(v@, (k - 2) as nat);
        }
    }

    proof fn lemma_prefix_unique(a: Self, b: Self, ra: Seq<u8>, rb: Seq<u8>) {
        lemma_le_bytes_len(a@.len(), 2);
        lemma_le_bytes_len(b@.len(), 2);
        assert(len_prefix(a@.len()) =~= (a.wire() + ra).take(2));
        assert(len_prefix(b@.len()) =~= (b.wire() + rb).take(2));
        reveal_with_fuel(pow256, 3);
        lemma_le_bytes_injective(a@.len(), b@.len(), 2);
        assert(seq_wire(a@) + ra =~= (a.wire() + ra).skip(2));
        assert(seq_wire(b@) + rb =~= (b.wire() + rb).skip(2));
        lemma_seq_wire_prefix(a@, b@, ra, rb);
        assert(b@.skip(a@.len() as int) =~= Seq::<T>::empty());
        assert(ra =~= rb);
        assert(a.wire() =~= (a.wire() + ra).take(a.wire().len() as int));
        assert(b.wire() =~= (b.wire() + rb).take(b.wire().len() as int));
        assert(a.deep_view() =~= b.deep_view());
    }
}

} // verus!
