//! Properties that hold across the codecs.
use vstd::prelude::*;
use crate::collections::{all_encodable, len_prefix, lemma_seq_wire_at_least_count};
use crate::le::{le_value, lemma_le_bytes_len, lemma_le_value_of_bytes, pow256};
use crate::maps::OrderedKey;
use crate::{decodable, Decode, Encode, MAX_LEN};
use std::collections::{BTreeMap, BTreeSet, VecDeque};

verus! {

/// Round trip: the bytes of an encodable value, whatever follows them, can be
/// decoded, and any value decoded from them is that value, taking exactly its
/// bytes and leaving what follows.
pub proof fn lemma_round_trip<T: Decode>(v: T, rest: Seq<u8>)
    requires
        v.encodable(),
    ensures
        decodable::<T>(v.wire() + rest),
        forall|w: T, rw: Seq<u8>|
            w.encodable() && v.wire() + rest == #[trigger] (w.wire() + rw) ==> w.deep_view()
                == v.deep_view() && w.wire().len() == v.wire().len() && rw == rest,
{
    assert forall|w: T, rw: Seq<u8>|
        w.encodable() && v.wire() + rest == #[trigger] (w.wire() + rw) implies w.deep_view()
        == v.deep_view() && w.wire().len() == v.wire().len() && rw == rest by {
        T::lemma_prefix_unique(w, v, rw, rest);
        assert(rw =~= (w.wire() + rw).skip(w.wire().len() as int));
        assert(rest =~= (v.wire() + rest).skip(v.wire().len() as int));
    }
}

/// An absent optional value takes one byte, the byte `0`; a present one takes one
/// byte more than the value itself.
pub proof fn lemma_option_lengths<T: Encode>(v: T)
    ensures
        None::<T>.wire() == seq![0u8],
        None::<T>.wire().len() == 1,
        Some(v).wire().len() == 1 + v.wire().len(),
        Some(v).encodable() == v.encodable(),
{
}

/// A collection over `MAX_LEN` entries cannot be encoded; one within it can,
/// when its entries can.
pub proof fn lemma_collection_cap<T: Encode>(v: Vec<T>)
    ensures
        v@.len() > MAX_LEN ==> !v.encodable(),
        v@.len() <= MAX_LEN && all_encodable(v@) ==> v.encodable(),
{
}

/// A double-ended queue over `MAX_LEN` entries cannot be encoded; one within it
/// can, when its entries can.
pub proof fn lemma_deque_cap<T: Encode>(q: VecDeque<T>)
    ensures
        q@.len() > MAX_LEN ==> !q.encodable(),
        q@.len() <= MAX_LEN && all_encodable(q@) ==> q.encodable(),
{
}

/// A sorted map over `MAX_LEN` entries cannot be encoded.
pub proof fn lemma_sorted_map_cap<K: OrderedKey, V: Encode>(m: BTreeMap<K, V>)
    ensures
        m@.len() > MAX_LEN ==> !m.encodable(),
{
}

/// A sorted set over `MAX_LEN` elements cannot be encoded.
pub proof fn lemma_sorted_set_cap<K: OrderedKey>(s: BTreeSet<K>)
    ensures
        s@.len() > MAX_LEN ==> !s.encodable(),
{
}

/// A collection whose declared count is more than the bytes after it cannot be
/// decoded, when every entry takes at least one byte.
pub proof fn lemma_truncated_collection<T: Encode>(buf: Seq<u8>)
    requires
        buf.len() >= 2,
        le_value(buf.take(2)) > buf.len() - 2,
        forall|x: T| #[trigger] x.encodable() ==> x.wire().len() >= 1,
    ensures
        !decodable::<Vec<T>>(buf),
{
    assert forall|v: Vec<T>, rest: Seq<u8>| #[trigger] v.encodable() && buf == #[trigger] (v.wire()
        + rest) implies false by {
        let n = v@.len();
        lemma_le_bytes_len(n, 2);
        reveal_with_fuel(pow256, 3);
        lemma_le_value_of_bytes(n, 2);
        assert(buf.take(2) =~= len_prefix(n));
        lemma_seq_wire_at_least_count(v@);
    }
}

} // verus!
