//! Hashed maps and sets: the entry count, then each entry (key, then value) in
//! the order the container iterates them. That order depends on the
//! container's hasher, so it is not kept from one container to another.
use vstd::prelude::*;
use vstd::std_specs::hash::{
    into_iter, into_iter_hash_keys, obeys_key_model, spec_hash_keys_iter, spec_hash_map_iter,
};
use vstd::std_specs::iter::IteratorSpec;
use std::collections::{HashMap, HashSet};
use crate::collections::{
    all_encodable, collection_error, collection_wire, entries_decodable, lemma_factor_bound,
    lemma_seq_wire_holds, lemma_seq_wire_push, lemma_seq_wire_uniform_len, len_prefix, map_of,
    seq_wire, set_of, uniform_sized,
};
use crate::le::{lemma_le_bytes_len, write_le};
use crate::maps::OrderedKey;
use crate::reader::ByteReader;
use crate::{CodecError, Decode, Encode, MAX_LEN};

verus! {

broadcast use vstd::std_specs::hash::group_hash_axioms;

/// A hashed map's entries, in the order it iterates them.
pub open spec fn hash_map_entries<K, V>(m: &HashMap<K, V>) -> Seq<(K, V)> {
    into_iter(spec_hash_map_iter(m))
}

/// A hashed set's elements, in the order it iterates them.
pub open spec fn hash_set_entries<K>(m: &HashSet<K>) -> Seq<K> {
    into_iter_hash_keys(spec_hash_keys_iter(m))
}

/// What a call of `iter` tells of a hashed map: it iterates each entry once.
fn hash_map_listing<K: OrderedKey, V>(m: &HashMap<K, V>)
    ensures
        hash_map_entries(m).len() == m@.len(),
{
    proof {
        K::lemma_key_model();
    }
    let iter = m.iter();
    proof {
        assert(hash_map_entries(m) == iter.remaining().unref());
    }
}

/// What a call of `iter` tells of a hashed set: it iterates each element once.
fn hash_set_listing<K: OrderedKey>(m: &HashSet<K>)
    ensures
        hash_set_entries(m).len() == m@.len(),
{
    proof {
        K::lemma_key_model();
    }
    let iter = m.iter();
    proof {
        assert(hash_set_entries(m) == iter.remaining().unref());
    }
}

/// Entries in the order the map iterates them, which depends on its hasher.
impl<K: OrderedKey, V: Encode> Encode for HashMap<K, V> {
    open spec fn fast_len(&self) -> nat {
        if hash_map_entries(self).len() > MAX_LEN {
            0
        } else if hash_map_entries(self).len() == 0 {
            2
        } else {
            2 + hash_map_entries(self).len() * hash_map_entries(self)[0].fast_len()
        }
    }

    open spec fn encodable(&self) -> bool {
        &&& hash_map_entries(self).len() <= MAX_LEN
        &&& all_encodable(hash_map_entries(self))
        &&& hash_map_entries(self).len() == self@.len()
    }

    open spec fn wire(&self) -> Seq<u8> {
        collection_wire(hash_map_entries(self))
    }

    open spec fn fast_exact(&self) -> bool {
        uniform_sized(hash_map_entries(self))
    }

    /// Two bytes plus the first entry's estimate times the count; `0` over the cap
    /// or where the product does not fit.
    fn fast_size(&self) -> (r: usize) {
        proof {
            K::lemma_key_model();
        }
        let ghost entries = hash_map_entries(self);
        let iter = self.iter();
        let len = self.len();
        proof {
            lemma_le_bytes_len(len as nat, 2);
        }
        if len > MAX_LEN {
            return 0;
        }
        if len == 0 {
            return 2;
        }
        let mut f: usize = 0;
        for kv in it: iter
            invariant_except_break
                it.index() == 0,
            invariant
                entries == hash_map_entries(self),
                it.seq().unref() == entries,
                len == entries.len(),
                len > 0,
            ensures
                entries[0].encodable() && entries[0].fast_exact() && entries[0].wire().len()
                    <= usize::MAX ==> f == entries[0].wire().len(),
                entries[0].fast_len() <= usize::MAX ==> f == entries[0].fast_len(),
        {
            let (k, v) = kv;
            assert(entries[0] == (*k, *v));
            let a = k.fast_size();
            let b = v.fast_size();
            if a <= usize::MAX - b {
                f = a + b;
            }
            break;
        }
        if f > 0 && len > (usize::MAX - 2) / f {
            proof {
                if self.fast_len() <= usize::MAX {
                    lemma_factor_bound(len as int, entries[0].fast_len() as int, usize::MAX - 2);
                    assert(false) by (nonlinear_arith)
                        requires
                            f > 0,
                            len > (usize::MAX - 2) / f as int,
                            2 + len * f <= usize::MAX,
                    ;
                }
                if self.encodable() && self.fast_exact() && self.wire().len() <= usize::MAX {
                    lemma_seq_wire_uniform_len(entries);
                    lemma_seq_wire_holds(entries, 0);
                    assert(entries[0].encodable() && entries[0].fast_exact());
                    assert(false) by (nonlinear_arith)
                        requires
                            f > 0,
                            len > (usize::MAX - 2) / f as int,
                            2 + len * f <= usize::MAX,
                    ;
                }
            }
            0
        } else {
            proof {
                assert(len * f <= usize::MAX - 2) by (nonlinear_arith)
                    requires
                        f == 0 || len <= (usize::MAX - 2) / f as int,
                ;
                if self.fast_len() <= usize::MAX {
                    lemma_factor_bound(len as int, entries[0].fast_len() as int, usize::MAX - 2);
                }
                if self.encodable() && self.fast_exact() && self.wire().len() <= usize::MAX {
                    lemma_seq_wire_uniform_len(entries);
                    lemma_seq_wire_holds(entries, 0);
                    assert(entries[0].encodable() && entries[0].fast_exact());
                }
            }
            len * f + 2
        }
    }

    fn size(&self) -> (r: Result<usize, CodecError>) {
        proof {
            K::lemma_key_model();
        }
        let ghost entries = hash_map_entries(self);
        hash_map_listing(self);
        let iter = self.iter();
        let len = self.len();
        proof {
            lemma_le_bytes_len(len as nat, 2);
        }
        if len > MAX_LEN {
            return Err(CodecError::InvalidInput);
        }
        let mut total: usize = 2;
        for kv in it: iter
            invariant
                entries == hash_map_entries(self),
                it.seq().unref() == entries,
                len == entries.len(),
                len_prefix(len as nat).len() == 2,
                all_encodable(entries.take(it.index() as int)),
                total == 2 + seq_wire(entries.take(it.index() as int)).len(),
        {
            let ghost i = it.index() as int;
            let (k, v) = kv;
            assert(entries[i] == (*k, *v));
            proof {
                lemma_seq_wire_holds(entries, i);
                assert(entries.take(i + 1) =~= entries.take(i).push(entries[i]));
                lemma_seq_wire_push(entries.take(i), entries[i]);
            }
            let a = match k.size() {
                Ok(n) => n,
                Err(e) => {
                    assert(!entries[i].encodable() || self.wire().len() > usize::MAX);
                    return Err(e);
                },
            };
            let b = match v.size() {
                Ok(n) => n,
                Err(e) => {
                    assert(!entries[i].encodable() || self.wire().len() > usize::MAX);
                    return Err(e);
                },
            };
            if a > usize::MAX - total || b > usize::MAX - total - a {
                return Err(CodecError::InvalidInput);
            }
            total = total + a + b;
        }
        assert(entries.take(len as int) =~= entries);
        Ok(total)
    }

    fn encode_into(&self, out: &mut Vec<u8>) -> (r: Result<(), CodecError>) {
        let start_len = out.len();
        proof {
            K::lemma_key_model();
        }
        let ghost entries = hash_map_entries(self);
        hash_map_listing(self);
        let iter = self.iter();
        let len = self.len();
        assert(len == entries.len());
        if len > MAX_LEN {
            return Err(CodecError::InvalidInput);
        }
        write_le(out, len as u128, 2);
        for kv in it: iter
            invariant
                start_len == old(out)@.len(),
                entries == hash_map_entries(self),
                it.seq().unref() == entries,
                len == entries.len(),
                all_encodable(entries.take(it.index() as int)),
                out@ == old(out)@ + len_prefix(len as nat) + seq_wire(entries.take(it.index() as int)),
        {
            let ghost i = it.index() as int;
            let (k, v) = kv;
            assert(entries[i] == (*k, *v));
            match k.encode_into(out) {
                Ok(()) => {},
                Err(e) => {
                    assert(!entries[i].encodable());
                    out.truncate(start_len);
                    return Err(e);
                },
            }
            match v.encode_into(out) {
                Ok(()) => {},
                Err(e) => {
                    assert(!entries[i].encodable());
                    out.truncate(start_len);
                    return Err(e);
                },
            }
            proof {
                assert(entries.take(i + 1) =~= entries.take(i).push(entries[i]));
                lemma_seq_wire_push(entries.take(i), entries[i]);
                assert(out@ =~= old(out)@ + len_prefix(len as nat) + seq_wire(entries.take(i + 1)));
            }
        }
        assert(entries.take(len as int) =~= entries);
        assert(out@ =~= old(out)@ + self.wire());
        Ok(())
    }
}

/// Elements in the order the set iterates them, which depends on its hasher.
impl<K: OrderedKey> Encode for HashSet<K> {
    open spec fn fast_len(&self) -> nat {
        if hash_set_entries(self).len() > MAX_LEN {
            0
        } else if hash_set_entries(self).len() == 0 {
            2
        } else {
            2 + hash_set_entries(self).len() * hash_set_entries(self)[0].fast_len()
        }
    }

    open spec fn encodable(&self) -> bool {
        &&& hash_set_entries(self).len() <= MAX_LEN
        &&& all_encodable(hash_set_entries(self))
        &&& hash_set_entries(self).len() == self@.len()
    }

    open spec fn wire(&self) -> Seq<u8> {
        collection_wire(hash_set_entries(self))
    }

    open spec fn fast_exact(&self) -> bool {
        uniform_sized(hash_set_entries(self))
    }

    /// Two bytes plus the first entry's estimate times the count; `0` over the cap
    /// or where the product does not fit.
    fn fast_size(&self) -> (r: usize) {
        proof {
            K::lemma_key_model();
        }
        let ghost entries = hash_set_entries(self);
        let iter = self.iter();
        let len = self.len();
        proof {
            lemma_le_bytes_len(len as nat, 2);
        }
        if len > MAX_LEN {
            return 0;
        }
        if len == 0 {
            return 2;
        }
        let mut f: usize = 0;
        for kv in it: iter
            invariant_except_break
                it.index() == 0,
            invariant
                entries == hash_set_entries(self),
                it.seq().unref() == entries,
                len == entries.len(),
                len > 0,
            ensures
                entries[0].encodable() && entries[0].fast_exact() && entries[0].wire().len()
                    <= usize::MAX ==> f == entries[0].wire().len(),
                entries[0].fast_len() <= usize::MAX ==> f == entries[0].fast_len(),
        {
            let k = kv;
            assert(entries[0] == *k);
            f = k.fast_size();
            break;
        }
        if f > 0 && len > (usize::MAX - 2) / f {
            proof {
                if self.fast_len() <= usize::MAX {
                    lemma_factor_bound(len as int, entries[0].fast_len() as int, usize::MAX - 2);
                    assert(false) by (nonlinear_arith)
                        requires
                            f > 0,
                            len > (usize::MAX - 2) / f as int,
                            2 + len * f <= usize::MAX,
                    ;
                }
                if self.encodable() && self.fast_exact() && self.wire().len() <= usize::MAX {
                    lemma_seq_wire_uniform_len(entries);
                    lemma_seq_wire_holds(entries, 0);
                    assert(entries[0].encodable() && entries[0].fast_exact());
                    assert(false) by (nonlinear_arith)
                        requires
                            f > 0,
                            len > (usize::MAX - 2) / f as int,
                            2 + len * f <= usize::MAX,
                    ;
                }
            }
            0
        } else {
            proof {
                assert(len * f <= usize::MAX - 2) by (nonlinear_arith)
                    requires
                        f == 0 || len <= (usize::MAX - 2) / f as int,
                ;
                if self.fast_len() <= usize::MAX {
                    lemma_factor_bound(len as int, entries[0].fast_len() as int, usize::MAX - 2);
                }
                if self.encodable() && self.fast_exact() && self.wire().len() <= usize::MAX {
                    lemma_seq_wire_uniform_len(entries);
                    lemma_seq_wire_holds(entries, 0);
                    assert(entries[0].encodable() && entries[0].fast_exact());
                }
            }
            len * f + 2
        }
    }

    fn size(&self) -> (r: Result<usize, CodecError>) {
        proof {
            K::lemma_key_model();
        }
        let ghost entries = hash_set_entries(self);
        hash_set_listing(self);
        let iter = self.iter();
        let len = self.len();
        proof {
            lemma_le_bytes_len(len as nat, 2);
        }
        if len > MAX_LEN {
            return Err(CodecError::InvalidInput);
        }
        let mut total: usize = 2;
        for kv in it: iter
            invariant
                entries == hash_set_entries(self),
                it.seq().unref() == entries,
                len == entries.len(),
                len_prefix(len as nat).len() == 2,
                all_encodable(entries.take(it.index() as int)),
                total == 2 + seq_wire(entries.take(it.index() as int)).len(),
        {
            let ghost i = it.index() as int;
            let k = kv;
            assert(entries[i] == *k);
            proof {
                lemma_seq_wire_holds(entries, i);
                assert(entries.take(i + 1) =~= entries.take(i).push(entries[i]));
                lemma_seq_wire_push(entries.take(i), entries[i]);
            }
            let a = match k.size() {
                Ok(n) => n,
                Err(e) => {
                    assert(!entries[i].encodable() || self.wire().len() > usize::MAX);
                    return Err(e);
                },
            };
            if a > usize::MAX - total {
                return Err(CodecError::InvalidInput);
            }
            total = total + a;
        }
        assert(entries.take(len as int) =~= entries);
        Ok(total)
    }

    fn encode_into(&self, out: &mut Vec<u8>) -> (r: Result<(), CodecError>) {
        let start_len = out.len();
        proof {
            K::lemma_key_model();
        }
        let ghost entries = hash_set_entries(self);
        hash_set_listing(self);
        let iter = self.iter();
        let len = self.len();
        assert(len == entries.len());
        if len > MAX_LEN {
            return Err(CodecError::InvalidInput);
        }
        write_le(out, len as u128, 2);
        for kv in it: iter
            invariant
                start_len == old(out)@.len(),
                entries == hash_set_entries(self),
                it.seq().unref() == entries,
                len == entries.len(),
                all_encodable(entries.take(it.index() as int)),
                out@ == old(out)@ + len_prefix(len as nat) + seq_wire(entries.take(it.index() as int)),
        {
            let ghost i = it.index() as int;
            let k = kv;
            assert(entries[i] == *k);
            match k.encode_into(out) {
                Ok(()) => {},
                Err(e) => {
                    assert(!entries[i].encodable());
                    out.truncate(start_len);
                    return Err(e);
                },
            }
            proof {
                assert(entries.take(i + 1) =~= entries.take(i).push(entries[i]));
                lemma_seq_wire_push(entries.take(i), entries[i]);
                assert(out@ =~= old(out)@ + len_prefix(len as nat) + seq_wire(entries.take(i + 1)));
            }
        }
        assert(entries.take(len as int) =~= entries);
        assert(out@ =~= old(out)@ + self.wire());
        Ok(())
    }
}

/// Reads a hashed map from the front of `reader`: the layout is that of a
/// sequence of key-value pairs, which the map holds inserted in order, a later
/// entry for a key replacing an earlier one.
pub fn decode_hash_map_from<K: OrderedKey, V: Decode>(reader: &mut ByteReader) -> (r: Result<
    (HashMap<K, V>, usize),
    CodecError,
>)
    ensures
        match r {
            Ok((m, n)) => exists|e: Seq<(K, V)>|
                e.len() <= MAX_LEN && all_encodable(e) && old(reader)@ == #[trigger] (collection_wire(
                    e,
                ) + final(reader)@) && n == collection_wire(e).len() && m@ == map_of(e),
            Err(e) => !entries_decodable::<(K, V)>(old(reader)@) && e == collection_error::<(K, V)>(
                old(reader)@,
            ),
        },
{
    let (pairs, n) = match Vec::<(K, V)>::decode_with_len_from(reader) {
        Ok(p) => p,
        Err(e) => return Err(e),
    };
    let ghost e = pairs@;
    proof {
        K::lemma_key_model();
    }
    let mut m: HashMap<K, V> = HashMap::new();
    for p in it: pairs.into_iter()
        invariant
            it.seq() == e,
            m@ == map_of(e.take(it.index() as int)),
            obeys_key_model::<K>(),
    {
        let ghost i = it.index() as int;
        let (k, v) = p;
        m.insert(k, v);
        proof {
            assert(e.take(i + 1).drop_last() =~= e.take(i));
        }
    }
    assert(e.take(e.len() as int) =~= e);
    Ok((m, n))
}

/// Reads a hashed map from the front of `buf`; see `decode_hash_map_from`.
pub fn decode_hash_map<K: OrderedKey, V: Decode>(buf: &[u8]) -> (r: Result<HashMap<K, V>, CodecError>)
    ensures
        match r {
            Ok(m) => exists|e: Seq<(K, V)>|
                e.len() <= MAX_LEN && all_encodable(e) && buf@ == #[trigger] (collection_wire(e)
                    + buf@.skip(collection_wire(e).len() as int)) && m@ == map_of(e),
            Err(e) => !entries_decodable::<(K, V)>(buf@) && e == collection_error::<(K, V)>(
                buf@,
            ),
        },
{
    let mut reader = ByteReader::new(buf);
    match decode_hash_map_from(&mut reader) {
        Ok((m, n)) => {
            proof {
                let e = choose|e: Seq<(K, V)>|
                    e.len() <= MAX_LEN && all_encodable(e) && buf@ == #[trigger] (collection_wire(e)
                        + reader@) && n == collection_wire(e).len() && m@ == map_of(e);
                assert(reader@ =~= buf@.skip(collection_wire(e).len() as int));
            }
            Ok(m)
        },
        Err(e) => Err(e),
    }
}

/// Reads a hashed set from the front of `reader`: the layout is that of a
/// sequence of elements, which the set holds.
pub fn decode_hash_set_from<K: OrderedKey>(reader: &mut ByteReader) -> (r: Result<
    (HashSet<K>, usize),
    CodecError,
>)
    ensures
        match r {
            Ok((m, n)) => exists|e: Seq<K>|
                e.len() <= MAX_LEN && all_encodable(e) && old(reader)@ == #[trigger] (collection_wire(
                    e,
                ) + final(reader)@) && n == collection_wire(e).len() && m@ == set_of(e),
            Err(e) => !entries_decodable::<K>(old(reader)@) && e == collection_error::<K>(
                old(reader)@,
            ),
        },
{
    let (elems, n) = match Vec::<K>::decode_with_len_from(reader) {
        Ok(p) => p,
        Err(e) => return Err(e),
    };
    let ghost e = elems@;
    proof {
        K::lemma_key_model();
    }
    let mut m: HashSet<K> = HashSet::new();
    for k in it: elems.into_iter()
        invariant
            it.seq() == e,
            m@ == set_of(e.take(it.index() as int)),
            obeys_key_model::<K>(),
    {
        let ghost i = it.index() as int;
        m.insert(k);
        proof {
            assert(e.take(i + 1).drop_last() =~= e.take(i));
        }
    }
    assert(e.take(e.len() as int) =~= e);
    Ok((m, n))
}

/// Reads a hashed set from the front of `buf`; see `decode_hash_set_from`.
pub fn decode_hash_set<K: OrderedKey>(buf: &[u8]) -> (r: Result<HashSet<K>, CodecError>)
    ensures
        match r {
            Ok(m) => exists|e: Seq<K>|
                e.len() <= MAX_LEN && all_encodable(e) && buf@ == #[trigger] (collection_wire(e)
                    + buf@.skip(collection_wire(e).len() as int)) && m@ == set_of(e),
            Err(e) => !entries_decodable::<K>(buf@) && e == collection_error::<K>(
                buf@,
            ),
        },
{
    let mut reader = ByteReader::new(buf);
    match decode_hash_set_from(&mut reader) {
        Ok((m, n)) => {
            proof {
                let e = choose|e: Seq<K>|
                    e.len() <= MAX_LEN && all_encodable(e) && buf@ == #[trigger] (collection_wire(e)
                        + reader@) && n == collection_wire(e).len() && m@ == set_of(e);
                assert(reader@ =~= buf@.skip(collection_wire(e).len() as int));
            }
            Ok(m)
        },
        Err(e) => Err(e),
    }
}

} // verus!
