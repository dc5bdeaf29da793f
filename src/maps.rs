//! Sorted maps and sets: the entry count, then each entry (key, then value) in
//! increasing key order, which is the order the containers iterate in.
use vstd::prelude::*;
use vstd::laws_cmp::obeys_cmp;
use core::cmp::Ordering;
use vstd::std_specs::cmp::OrdSpec;
use vstd::std_specs::hash::obeys_key_model;
use vstd::std_specs::iter::IteratorSpec;
use vstd::std_specs::btree::{
    increasing_seq, into_iter, into_iter_btree_keys, spec_btree_keys_iter, spec_btree_map_iter,
};
use std::collections::{BTreeMap, BTreeSet};
use crate::collections::{
    all_encodable, collection_error, collection_wire, entries_decodable, lemma_factor_bound,
    lemma_seq_wire_holds, lemma_seq_wire_push, lemma_seq_wire_uniform_len, len_prefix, map_of,
    seq_wire, set_of, uniform_sized,
};
use crate::le::{lemma_le_bytes_len, write_le};
use crate::reader::ByteReader;
use crate::{CodecError, Decode, Encode, MAX_LEN};

verus! {

broadcast use vstd::std_specs::btree::group_btree_axioms;

/// A key type whose order and hashing obey the laws that sorted and hashed
/// containers rely on.
pub trait OrderedKey: Decode + Ord + core::hash::Hash + Copy {
    proof fn lemma_obeys_cmp()
        ensures
            obeys_cmp::<Self>(),
    ;

    proof fn lemma_key_model()
        ensures
            obeys_key_model::<Self>(),
    ;
}

impl OrderedKey for u8 {
    proof fn lemma_obeys_cmp() {
        broadcast use vstd::laws_cmp::group_laws_cmp;
    }

    proof fn lemma_key_model() {
        broadcast use vstd::std_specs::hash::group_hash_axioms;
    }
}

impl OrderedKey for u16 {
    proof fn lemma_obeys_cmp() {
        broadcast use vstd::laws_cmp::group_laws_cmp;
    }

    proof fn lemma_key_model() {
        broadcast use vstd::std_specs::hash::group_hash_axioms;
    }
}

impl OrderedKey for u32 {
    proof fn lemma_obeys_cmp() {
        broadcast use vstd::laws_cmp::group_laws_cmp;
    }

    proof fn lemma_key_model() {
        broadcast use vstd::std_specs::hash::group_hash_axioms;
    }
}

impl OrderedKey for u64 {
    proof fn lemma_obeys_cmp() {
        broadcast use vstd::laws_cmp::group_laws_cmp;
    }

    proof fn lemma_key_model() {
        broadcast use vstd::std_specs::hash::group_hash_axioms;
    }
}

impl OrderedKey for u128 {
    proof fn lemma_obeys_cmp() {
        broadcast use vstd::laws_cmp::group_laws_cmp;
    }

    proof fn lemma_key_model() {
        broadcast use vstd::std_specs::hash::group_hash_axioms;
    }
}

impl OrderedKey for usize {
    proof fn lemma_obeys_cmp() {
        broadcast use vstd::laws_cmp::group_laws_cmp;
    }

    proof fn lemma_key_model() {
        broadcast use vstd::std_specs::hash::group_hash_axioms;
    }
}

impl OrderedKey for i8 {
    proof fn lemma_obeys_cmp() {
        broadcast use vstd::laws_cmp::group_laws_cmp;
    }

    proof fn lemma_key_model() {
        broadcast use vstd::std_specs::hash::group_hash_axioms;
    }
}

impl OrderedKey for i16 {
    proof fn lemma_obeys_cmp() {
        broadcast use vstd::laws_cmp::group_laws_cmp;
    }

    proof fn lemma_key_model() {
        broadcast use vstd::std_specs::hash::group_hash_axioms;
    }
}

impl OrderedKey for i32 {
    proof fn lemma_obeys_cmp() {
        broadcast use vstd::laws_cmp::group_laws_cmp;
    }

    proof fn lemma_key_model() {
        broadcast use vstd::std_specs::hash::group_hash_axioms;
    }
}

impl OrderedKey for i64 {
    proof fn lemma_obeys_cmp() {
        broadcast use vstd::laws_cmp::group_laws_cmp;
    }

    proof fn lemma_key_model() {
        broadcast use vstd::std_specs::hash::group_hash_axioms;
    }
}

impl OrderedKey for i128 {
    proof fn lemma_obeys_cmp() {
        broadcast use vstd::laws_cmp::group_laws_cmp;
    }

    proof fn lemma_key_model() {
        broadcast use vstd::std_specs::hash::group_hash_axioms;
    }
}

impl OrderedKey for isize {
    proof fn lemma_obeys_cmp() {
        broadcast use vstd::laws_cmp::group_laws_cmp;
    }

    proof fn lemma_key_model() {
        broadcast use vstd::std_specs::hash::group_hash_axioms;
    }
}

/// `a` comes before `b` in the key order.
pub open spec fn key_lt<K: Ord>(a: K, b: K) -> bool {
    a.cmp_spec(&b) == Ordering::Less
}

/// The keys of `s` increase strictly from entry to entry.
pub open spec fn keys_increasing<K: Ord, V>(s: Seq<(K, V)>) -> bool {
    forall|i: int, j: int| 0 <= i < j < s.len() ==> #[trigger] key_lt(s[i].0, s[j].0)
}

/// Every entry of `s` is in `m`, and every key of `m` has an entry in `s`.
pub open spec fn lists_map<K, V>(s: Seq<(K, V)>, m: Map<K, V>) -> bool {
    &&& forall|i: int| 0 <= i < s.len() ==> #[trigger] m.contains_key(s[i].0) && m[s[i].0] == s[i].1
    &&& forall|k: K| #[trigger] m.contains_key(k) ==> exists|i: int| 0 <= i < s.len() && s[i].0 == k
}

/// A sorted map's entries, in the order it iterates them: increasing key order.
pub open spec fn map_entries<K, V>(m: &BTreeMap<K, V>) -> Seq<(K, V)> {
    into_iter(spec_btree_map_iter(m))
}

/// What a call of `iter` tells of a sorted map: its entries, in the order it
/// iterates them, list the map with strictly increasing keys. After a call, a map
/// of at most `MAX_LEN` encodable entries is known to be encodable.
pub fn map_listing<K: OrderedKey, V>(m: &BTreeMap<K, V>)
    ensures
        keys_increasing(map_entries(m)),
        lists_map(map_entries(m), m@),
        map_entries(m).len() == m@.len(),
{
    proof {
        K::lemma_obeys_cmp();
    }
    let iter = m.iter();
    proof {
        let rem = iter.remaining();
        let entries = map_entries(m);
        assert(entries == rem.unref());
        let keys = rem.map_values(|kv: (&K, &V)| *kv.0);
        assert(increasing_seq(keys));
        assert forall|i: int, j: int| 0 <= i < j < entries.len() implies #[trigger] key_lt(
            entries[i].0,
            entries[j].0,
        ) by {
            assert(keys[i] == entries[i].0);
            assert(keys[j] == entries[j].0);
        }
        assert forall|i: int| 0 <= i < entries.len() implies #[trigger] m@.contains_key(
            entries[i].0,
        ) && m@[entries[i].0] == entries[i].1 by {
            assert(m@.contains_key(*rem[i].0));
        }
        assert forall|k: K| #[trigger] m@.contains_key(k) implies exists|i: int|
            0 <= i < entries.len() && entries[i].0 == k by {
            assert(rem.contains((&k, &m@[k])));
            let i = choose|i: int| 0 <= i < rem.len() && rem[i] == (&k, &m@[k]);
            assert(entries[i].0 == k);
        }
    }
}

/// Entries in increasing key order; every sorted map lists its entries so.
impl<K: OrderedKey, V: Encode> Encode for BTreeMap<K, V> {
    open spec fn fast_len(&self) -> nat {
        if map_entries(self).len() > MAX_LEN {
            0
        } else if map_entries(self).len() == 0 {
            2
        } else {
            2 + map_entries(self).len() * map_entries(self)[0].fast_len()
        }
    }

    open spec fn encodable(&self) -> bool {
        &&& map_entries(self).len() <= MAX_LEN
        &&& all_encodable(map_entries(self))
        &&& keys_increasing(map_entries(self))
        &&& lists_map(map_entries(self), self@)
        &&& map_entries(self).len() == self@.len()
    }

    open spec fn wire(&self) -> Seq<u8> {
        collection_wire(map_entries(self))
    }

    open spec fn fast_exact(&self) -> bool {
        uniform_sized(map_entries(self))
    }

    /// Two bytes plus the first entry's estimate times the count; `0` over the cap
    /// or where the product does not fit.
    fn fast_size(&self) -> (r: usize) {
        proof {
            K::lemma_obeys_cmp();
        }
        let ghost entries = map_entries(self);
        let iter = self.iter();
        let len = self.len();
        proof {
            lemma_le_bytes_len(len as nat, 2);
        }
        if len > MAX_LEN {
            return 0;
        }
        if len == 0 {
            return 2;
        }
        let mut f: usize = 0;
        for kv in it: iter
            invariant_except_break
                it.index() == 0,
            invariant
                entries == map_entries(self),
                it.seq().unref() == entries,
                len == entries.len(),
                len > 0,
            ensures
                entries[0].encodable() && entries[0].fast_exact() && entries[0].wire().len()
                    <= usize::MAX ==> f == entries[0].wire().len(),
                entries[0].fast_len() <= usize::MAX ==> f == entries[0].fast_len(),
        {
            let (k, v) = kv;
            assert(entries[0] == (*k, *v));
            let a = k.fast_size();
            let b = v.fast_size();
            if a <= usize::MAX - b {
                f = a + b;
            }
            break;
        }
        if f > 0 && len > (usize::MAX - 2) / f {
            proof {
                if self.fast_len() <= usize::MAX {
                    lemma_factor_bound(len as int, entries[0].fast_len() as int, usize::MAX - 2);
                    assert(false) by (nonlinear_arith)
                        requires
                            f > 0,
                            len > (usize::MAX - 2) / f as int,
                            2 + len * f <= usize::MAX,
                    ;
                }
                if self.encodable() && self.fast_exact() && self.wire().len() <= usize::MAX {
                    lemma_seq_wire_uniform_len(entries);
                    lemma_seq_wire_holds(entries, 0);
                    assert(entries[0].encodable() && entries[0].fast_exact());
                    assert(false) by (nonlinear_arith)
                        requires
                            f > 0,
                            len > (usize::MAX - 2) / f as int,
                            2 + len * f <= usize::MAX,
                    ;
                }
            }
            0
        } else {
            proof {
                assert(len * f <= usize::MAX - 2) by (nonlinear_arith)
                    requires
                        f == 0 || len <= (usize::MAX - 2) / f as int,
                ;
                if self.fast_len() <= usize::MAX {
                    lemma_factor_bound(len as int, entries[0].fast_len() as int, usize::MAX - 2);
                }
                if self.encodable() && self.fast_exact() && self.wire().len() <= usize::MAX {
                    lemma_seq_wire_uniform_len(entries);
                    lemma_seq_wire_holds(entries, 0);
                    assert(entries[0].encodable() && entries[0].fast_exact());
                }
            }
            len * f + 2
        }
    }

    fn size(&self) -> (r: Result<usize, CodecError>) {
        proof {
            K::lemma_obeys_cmp();
        }
        let ghost entries = map_entries(self);
        map_listing(self);
        let iter = self.iter();
        let len = self.len();
        proof {
            lemma_le_bytes_len(len as nat, 2);
        }
        if len > MAX_LEN {
            return Err(CodecError::InvalidInput);
        }
        let mut total: usize = 2;
        for kv in it: iter
            invariant
                entries == map_entries(self),
                it.seq().unref() == entries,
                len == entries.len(),
                len_prefix(len as nat).len() == 2,
                all_encodable(entries.take(it.index() as int)),
                total == 2 + seq_wire(entries.take(it.index() as int)).len(),
        {
            let ghost i = it.index() as int;
            let (k, v) = kv;
            assert(entries[i] == (*k, *v));
            proof {
                lemma_seq_wire_holds(entries, i);
                assert(entries.take(i + 1) =~= entries.take(i).push(entries[i]));
                lemma_seq_wire_push(entries.take(i), entries[i]);
            }
            let a = match k.size() {
                Ok(n) => n,
                Err(e) => {
                    assert(!entries[i].encodable() || self.wire().len() > usize::MAX);
                    return Err(e);
                },
            };
            let b = match v.size() {
                Ok(n) => n,
                Err(e) => {
                    assert(!entries[i].encodable() || self.wire().len() > usize::MAX);
                    return Err(e);
                },
            };
            if a > usize::MAX - total || b > usize::MAX - total - a {
                return Err(CodecError::InvalidInput);
            }
            total = total + a + b;
        }
        assert(entries.take(len as int) =~= entries);
        Ok(total)
    }

    fn encode_into(&self, out: &mut Vec<u8>) -> (r: Result<(), CodecError>) {
        let start_len = out.len();
        proof {
            K::lemma_obeys_cmp();
        }
        let ghost entries = map_entries(self);
        map_listing(self);
        let iter = self.iter();
        let len = self.len();
        assert(len == entries.len());
        if len > MAX_LEN {
            return Err(CodecError::InvalidInput);
        }
        write_le(out, len as u128, 2);
        for kv in it: iter
            invariant
                start_len == old(out)@.len(),
                entries == map_entries(self),
                it.seq().unref() == entries,
                len == entries.len(),
                all_encodable(entries.take(it.index() as int)),
                out@ == old(out)@ + len_prefix(len as nat) + seq_wire(entries.take(it.index() as int)),
        {
            let ghost i = it.index() as int;
            let (k, v) = kv;
            assert(entries[i] == (*k, *v));
            match k.encode_into(out) {
                Ok(()) => {},
                Err(e) => {
                    assert(!entries[i].encodable());
                    out.truncate(start_len);
                    return Err(e);
                },
            }
            match v.encode_into(out) {
                Ok(()) => {},
                Err(e) => {
                    assert(!entries[i].encodable());
                    out.truncate(start_len);
                    return Err(e);
                },
            }
            proof {
                assert(entries.take(i + 1) =~= entries.take(i).push(entries[i]));
                lemma_seq_wire_push(entries.take(i), entries[i]);
                assert(out@ =~= old(out)@ + len_prefix(len as nat) + seq_wire(entries.take(i + 1)));
            }
        }
        assert(entries.take(len as int) =~= entries);
        assert(out@ =~= old(out)@ + self.wire());
        Ok(())
    }
}

/// A sorted set's elements, in the order it iterates them: increasing order.
pub open spec fn set_entries<K>(m: &BTreeSet<K>) -> Seq<K> {
    into_iter_btree_keys(spec_btree_keys_iter(m))
}

/// The elements of `s` increase strictly.
pub open spec fn elems_increasing<K: Ord>(s: Seq<K>) -> bool {
    forall|i: int, j: int| 0 <= i < j < s.len() ==> #[trigger] key_lt(s[i], s[j])
}

/// Every element of `s` is in `m`, and every element of `m` is in `s`.
pub open spec fn lists_set<K>(s: Seq<K>, m: Set<K>) -> bool {
    &&& forall|i: int| 0 <= i < s.len() ==> #[trigger] m.contains(s[i])
    &&& forall|k: K| #[trigger] m.contains(k) ==> exists|i: int| 0 <= i < s.len() && s[i] == k
}

/// What a call of `iter` tells of a sorted set: its elements, in the order it
/// iterates them, list the set in strictly increasing order. After a call, a set
/// of at most `MAX_LEN` encodable elements is known to be encodable.
pub fn set_listing<K: OrderedKey>(m: &BTreeSet<K>)
    ensures
        elems_increasing(set_entries(m)),
        lists_set(set_entries(m), m@),
        set_entries(m).len() == m@.len(),
{
    proof {
        K::lemma_obeys_cmp();
        broadcast use vstd::laws_cmp::group_laws_cmp;
    }
    let iter = m.iter();
    proof {
        let rem = iter.remaining();
        let entries = set_entries(m);
        assert(entries == rem.unref());
        broadcast use vstd::laws_cmp::lemma_ref_obeys_cmp_spec;
        assert(obeys_cmp::<&K>());
        assert(increasing_seq(rem));
        vstd::std_specs::btree::axiom_increasing_seq_meaning(rem);
        assert forall|i: int, j: int| 0 <= i < j < entries.len() implies #[trigger] key_lt(
            entries[i],
            entries[j],
        ) by {
            assert(<&K as OrdSpec>::cmp_spec(&rem[i], &rem[j]) == Ordering::Less);
        }
        assert forall|i: int| 0 <= i < entries.len() implies #[trigger] m@.contains(entries[i]) by {
            assert(rem.unref().to_set().contains(entries[i]));
        }
        assert forall|k: K| #[trigger] m@.contains(k) implies exists|i: int|
            0 <= i < entries.len() && entries[i] == k by {
            assert(rem.unref().to_set().contains(k));
        }
    }
}

/// Elements in increasing order; every sorted set lists its elements so.
impl<K: OrderedKey> Encode for BTreeSet<K> {
    open spec fn fast_len(&self) -> nat {
        if set_entries(self).len() > MAX_LEN {
            0
        } else if set_entries(self).len() == 0 {
            2
        } else {
            2 + set_entries(self).len() * set_entries(self)[0].fast_len()
        }
    }

    open spec fn encodable(&self) -> bool {
        &&& set_entries(self).len() <= MAX_LEN
        &&& all_encodable(set_entries(self))
        &&& elems_increasing(set_entries(self))
        &&& lists_set(set_entries(self), self@)
        &&& set_entries(self).len() == self@.len()
    }

    open spec fn wire(&self) -> Seq<u8> {
        collection_wire(set_entries(self))
    }

    open spec fn fast_exact(&self) -> bool {
        uniform_sized(set_entries(self))
    }

    /// Two bytes plus the first entry's estimate times the count; `0` over the cap
    /// or where the product does not fit.
    fn fast_size(&self) -> (r: usize) {
        proof {
            K::lemma_obeys_cmp();
        }
        let ghost entries = set_entries(self);
        let iter = self.iter();
        let len = self.len();
        proof {
            lemma_le_bytes_len(len as nat, 2);
        }
        if len > MAX_LEN {
            return 0;
        }
        if len == 0 {
            return 2;
        }
        let mut f: usize = 0;
        for kv in it: iter
            invariant_except_break
                it.index() == 0,
            invariant
                entries == set_entries(self),
                it.seq().unref() == entries,
                len == entries.len(),
                len > 0,
            ensures
                entries[0].encodable() && entries[0].fast_exact() && entries[0].wire().len()
                    <= usize::MAX ==> f == entries[0].wire().len(),
                entries[0].fast_len() <= usize::MAX ==> f == entries[0].fast_len(),
        {
            let k = kv;
            assert(entries[0] == *k);
            f = k.fast_size();
            break;
        }
        if f > 0 && len > (usize::MAX - 2) / f {
            proof {
                if self.fast_len() <= usize::MAX {
                    lemma_factor_bound(len as int, entries[0].fast_len() as int, usize::MAX - 2);
                    assert(false) by (nonlinear_arith)
                        requires
                            f > 0,
                            len > (usize::MAX - 2) / f as int,
                            2 + len * f <= usize::MAX,
                    ;
                }
                if self.encodable() && self.fast_exact() && self.wire().len() <= usize::MAX {
                    lemma_seq_wire_uniform_len(entries);
                    lemma_seq_wire_holds(entries, 0);
                    assert(entries[0].encodable() && entries[0].fast_exact());
                    assert(false) by (nonlinear_arith)
                        requires
                            f > 0,
                            len > (usize::MAX - 2) / f as int,
                            2 + len * f <= usize::MAX,
                    ;
                }
            }
            0
        } else {
            proof {
                assert(len * f <= usize::MAX - 2) by (nonlinear_arith)
                    requires
                        f == 0 || len <= (usize::MAX - 2) / f as int,
                ;
                if self.fast_len() <= usize::MAX {
                    lemma_factor_bound(len as int, entries[0].fast_len() as int, usize::MAX - 2);
                }
                if self.encodable() && self.fast_exact() && self.wire().len() <= usize::MAX {
                    lemma_seq_wire_uniform_len(entries);
                    lemma_seq_wire_holds(entries, 0);
                    assert(entries[0].encodable() && entries[0].fast_exact());
                }
            }
            len * f + 2
        }
    }

    fn size(&self) -> (r: Result<usize, CodecError>) {
        proof {
            K::lemma_obeys_cmp();
        }
        let ghost entries = set_entries(self);
        set_listing(self);
        let iter = self.iter();
        let len = self.len();
        proof {
            lemma_le_bytes_len(len as nat, 2);
        }
        if len > MAX_LEN {
            return Err(CodecError::InvalidInput);
        }
        let mut total: usize = 2;
        for kv in it: iter
            invariant
                entries == set_entries(self),
                it.seq().unref() == entries,
                len == entries.len(),
                len_prefix(len as nat).len() == 2,
                all_encodable(entries.take(it.index() as int)),
                total == 2 + seq_wire(entries.take(it.index() as int)).len(),
        {
            let ghost i = it.index() as int;
            let k = kv;
            assert(entries[i] == *k);
            proof {
                lemma_seq_wire_holds(entries, i);
                assert(entries.take(i + 1) =~= entries.take(i).push(entries[i]));
                lemma_seq_wire_push(entries.take(i), entries[i]);
            }
            let a = match k.size() {
                Ok(n) => n,
                Err(e) => {
                    assert(!entries[i].encodable() || self.wire().len() > usize::MAX);
                    return Err(e);
                },
            };
            if a > usize::MAX - total {
                return Err(CodecError::InvalidInput);
            }
            total = total + a;
        }
        assert(entries.take(len as int) =~= entries);
        Ok(total)
    }

    fn encode_into(&self, out: &mut Vec<u8>) -> (r: Result<(), CodecError>) {
        let start_len = out.len();
        proof {
            K::lemma_obeys_cmp();
        }
        let ghost entries = set_entries(self);
        set_listing(self);
        let iter = self.iter();
        let len = self.len();
        assert(len == entries.len());
        if len > MAX_LEN {
            return Err(CodecError::InvalidInput);
        }
        write_le(out, len as u128, 2);
        for kv in it: iter
            invariant
                start_len == old(out)@.len(),
                entries == set_entries(self),
                it.seq().unref() == entries,
                len == entries.len(),
                all_encodable(entries.take(it.index() as int)),
                out@ == old(out)@ + len_prefix(len as nat) + seq_wire(entries.take(it.index() as int)),
        {
            let ghost i = it.index() as int;
            let k = kv;
            assert(entries[i] == *k);
            match k.encode_into(out) {
                Ok(()) => {},
                Err(e) => {
                    assert(!entries[i].encodable());
                    out.truncate(start_len);
                    return Err(e);
                },
            }
            proof {
                assert(entries.take(i + 1) =~= entries.take(i).push(entries[i]));
                lemma_seq_wire_push(entries.take(i), entries[i]);
                assert(out@ =~= old(out)@ + len_prefix(len as nat) + seq_wire(entries.take(i + 1)));
            }
        }
        assert(entries.take(len as int) =~= entries);
        assert(out@ =~= old(out)@ + self.wire());
        Ok(())
    }
}

/// Reads a sorted map from the front of `reader`: the layout is that of a
/// sequence of key-value pairs, which the map holds inserted in order, a later
/// entry for a key replacing an earlier one.
pub fn decode_btree_map_from<K: OrderedKey, V: Decode>(reader: &mut ByteReader) -> (r: Result<
    (BTreeMap<K, V>, usize),
    CodecError,
>)
    ensures
        match r {
            Ok((m, n)) => exists|e: Seq<(K, V)>|
                e.len() <= MAX_LEN && all_encodable(e) && old(reader)@ == #[trigger] (collection_wire(
                    e,
                ) + final(reader)@) && n == collection_wire(e).len() && m@ == map_of(e),
            Err(e) => !entries_decodable::<(K, V)>(old(reader)@) && e == collection_error::<(K, V)>(
                old(reader)@,
            ),
        },
{
    let (pairs, n) = match Vec::<(K, V)>::decode_with_len_from(reader) {
        Ok(p) => p,
        Err(e) => return Err(e),
    };
    let ghost e = pairs@;
    proof {
        K::lemma_obeys_cmp();
    }
    let mut m: BTreeMap<K, V> = BTreeMap::new();
    for p in it: pairs.into_iter()
        invariant
            it.seq() == e,
            m@ == map_of(e.take(it.index() as int)),
            obeys_cmp::<K>(),
    {
        let ghost i = it.index() as int;
        let (k, v) = p;
        m.insert(k, v);
        proof {
            assert(e.take(i + 1).drop_last() =~= e.take(i));
        }
    }
    assert(e.take(e.len() as int) =~= e);
    Ok((m, n))
}

/// Reads a sorted map from the front of `buf`; see `decode_btree_map_from`.
pub fn decode_btree_map<K: OrderedKey, V: Decode>(buf: &[u8]) -> (r: Result<BTreeMap<K, V>, CodecError>)
    ensures
        match r {
            Ok(m) => exists|e: Seq<(K, V)>|
                e.len() <= MAX_LEN && all_encodable(e) && buf@ == #[trigger] (collection_wire(e)
                    + buf@.skip(collection_wire(e).len() as int)) && m@ == map_of(e),
            Err(e) => !entries_decodable::<(K, V)>(buf@) && e == collection_error::<(K, V)>(
                buf@,
            ),
        },
{
    let mut reader = ByteReader::new(buf);
    match decode_btree_map_from(&mut reader) {
        Ok((m, n)) => {
            proof {
                let e = choose|e: Seq<(K, V)>|
                    e.len() <= MAX_LEN && all_encodable(e) && buf@ == #[trigger] (collection_wire(e)
                        + reader@) && n == collection_wire(e).len() && m@ == map_of(e);
                assert(reader@ =~= buf@.skip(collection_wire(e).len() as int));
            }
            Ok(m)
        },
        Err(e) => Err(e),
    }
}

/// Reads a sorted set from the front of `reader`: the layout is that of a
/// sequence of elements, which the set holds.
pub fn decode_btree_set_from<K: OrderedKey>(reader: &mut ByteReader) -> (r: Result<
    (BTreeSet<K>, usize),
    CodecError,
>)
    ensures
        match r {
            Ok((m, n)) => exists|e: Seq<K>|
                e.len() <= MAX_LEN && all_encodable(e) && old(reader)@ == #[trigger] (collection_wire(
                    e,
                ) + final(reader)@) && n == collection_wire(e).len() && m@ == set_of(e),
            Err(e) => !entries_decodable::<K>(old(reader)@) && e == collection_error::<K>(
                old(reader)@,
            ),
        },
{
    let (elems, n) = match Vec::<K>::decode_with_len_from(reader) {
        Ok(p) => p,
        Err(e) => return Err(e),
    };
    let ghost e = elems@;
    proof {
        K::lemma_obeys_cmp();
    }
    let mut m: BTreeSet<K> = BTreeSet::new();
    for k in it: elems.into_iter()
        invariant
            it.seq() == e,
            m@ == set_of(e.take(it.index() as int)),
            obeys_cmp::<K>(),
    {
        let ghost i = it.index() as int;
        m.insert(k);
        proof {
            assert(e.take(i + 1).drop_last() =~= e.take(i));
        }
    }
    assert(e.take(e.len() as int) =~= e);
    Ok((m, n))
}

/// Reads a sorted set from the front of `buf`; see `decode_btree_set_from`.
pub fn decode_btree_set<K: OrderedKey>(buf: &[u8]) -> (r: Result<BTreeSet<K>, CodecError>)
    ensures
        match r {
            Ok(m) => exists|e: Seq<K>|
                e.len() <= MAX_LEN && all_encodable(e) && buf@ == #[trigger] (collection_wire(e)
                    + buf@.skip(collection_wire(e).len() as int)) && m@ == set_of(e),
            Err(e) => !entries_decodable::<K>(buf@) && e == collection_error::<K>(
                buf@,
            ),
        },
{
    let mut reader = ByteReader::new(buf);
    match decode_btree_set_from(&mut reader) {
        Ok((m, n)) => {
            proof {
                let e = choose|e: Seq<K>|
                    e.len() <= MAX_LEN && all_encodable(e) && buf@ == #[trigger] (collection_wire(e)
                        + reader@) && n == collection_wire(e).len() && m@ == set_of(e);
                assert(reader@ =~= buf@.skip(collection_wire(e).len() as int));
            }
            Ok(m)
        },
        Err(e) => Err(e),
    }
}

} // verus!
