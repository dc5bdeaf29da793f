//! A record of proof-of-work proofs: a description, two counts, and the proof
//! nodes as a map from node index to a 32-byte hash.
use vstd::prelude::*;
use crate::le::lemma_le_bytes_len;
use crate::reader::ByteReader;
use std::collections::BTreeMap;
use vstd::laws_cmp::obeys_cmp;
use crate::collections::map_of;
use crate::maps::OrderedKey;
use crate::{decodable, CodecError, Decode, Encode, MAX_LEN};

verus! {

/// A 32-byte hash.
pub type Hash = [u8; 32];

/// Proofs for a tree of `levels` levels: `proofs` proofs over `nodes`, which
/// maps node indices (in increasing order) to hashes.
///
/// On the wire: the description as a byte string, `levels` and `proofs` as
/// 16-bit counts, then `nodes` with the layout of a map.
#[derive(Clone, Debug)]
pub struct Proofs {
    pub description: Vec<u8>,
    pub levels: usize,
    pub proofs: usize,
    pub nodes: BTreeMap<usize, Hash>,
}

impl Proofs {
    pub fn new(description: Vec<u8>, levels: usize, proofs: usize, nodes: BTreeMap<usize, Hash>) -> (r:
        Self)
        ensures
            r.description@ == description@,
            r.levels == levels,
            r.proofs == proofs,
            r.nodes@ == nodes@,
    {
        Proofs { description, levels, proofs, nodes }
    }
}

impl DeepView for Proofs {
    type V = (<Vec<u8> as DeepView>::V, usize, usize, <BTreeMap<usize, Hash> as DeepView>::V);

    open spec fn deep_view(&self) -> Self::V {
        (self.description.deep_view(), self.levels, self.proofs, self.nodes.deep_view())
    }
}

impl Encode for Proofs {
    open spec fn encodable(&self) -> bool {
        self.description.encodable() && self.levels <= MAX_LEN && self.proofs <= MAX_LEN && self.nodes.encodable()
    }

    open spec fn wire(&self) -> Seq<u8> {
        self.description.wire() + (self.levels as u16).wire() + (self.proofs as u16).wire() + self.nodes.wire()
    }

    open spec fn fast_exact(&self) -> bool {
        self.description.fast_exact() && self.nodes.fast_exact()
    }

    open spec fn fast_len(&self) -> nat {
        self.description.fast_len() + 2 + 2 + self.nodes.fast_len()
    }

    fn fast_size(&self) -> (r: usize) {
        let mut total: usize = self.description.fast_size();
        proof {
            if self.encodable() && self.fast_exact() && self.wire().len() <= usize::MAX {
                assert(self.wire().len() >= self.description.wire().len());
            }
        }
        proof {
            lemma_le_bytes_len((self.levels as u16) as nat, 2);
        }
        let f1: usize = 2;
        if f1 > usize::MAX - total {
            proof {
                if self.encodable() && self.fast_exact() && self.wire().len() <= usize::MAX {
                    assert(self.wire().len() >= (self.description.wire() + (self.levels as u16).wire()).len());
                }
            }
            return 0;
        }
        total = total + f1;
        proof {
            if self.encodable() && self.fast_exact() && self.wire().len() <= usize::MAX {
                assert(self.wire().len() >= (self.description.wire() + (self.levels as u16).wire()).len());
                assert(total == (self.description.wire() + (self.levels as u16).wire()).len());
            }
        }
        proof {
            lemma_le_bytes_len((self.proofs as u16) as nat, 2);
        }
        let f2: usize = 2;
        if f2 > usize::MAX - total {
            proof {
                if self.encodable() && self.fast_exact() && self.wire().len() <= usize::MAX {
                    assert(self.wire().len() >= (self.description.wire() + (self.levels as u16).wire() + (self.proofs as u16).wire()).len());
                }
            }
            return 0;
        }
        total = total + f2;
        proof {
            if self.encodable() && self.fast_exact() && self.wire().len() <= usize::MAX {
                assert(self.wire().len() >= (self.description.wire() + (self.levels as u16).wire() + (self.proofs as u16).wire()).len());
                assert(total == (self.description.wire() + (self.levels as u16).wire() + (self.proofs as u16).wire()).len());
            }
        }
        let f3: usize = self.nodes.fast_size();
        if f3 > usize::MAX - total {
            proof {
                if self.encodable() && self.fast_exact() && self.wire().len() <= usize::MAX {
                    assert(self.wire().len() >= (self.description.wire() + (self.levels as u16).wire() + (self.proofs as u16).wire() + self.nodes.wire()).len());
                }
            }
            return 0;
        }
        total = total + f3;
        proof {
            if self.encodable() && self.fast_exact() && self.wire().len() <= usize::MAX {
                assert(self.wire().len() >= (self.description.wire() + (self.levels as u16).wire() + (self.proofs as u16).wire() + self.nodes.wire()).len());
                assert(total == (self.description.wire() + (self.levels as u16).wire() + (self.proofs as u16).wire() + self.nodes.wire()).len());
            }
        }
        total
    }

    fn size(&self) -> (r: Result<usize, CodecError>) {
        let n0 = match self.description.size() {
            Ok(n) => n,
            Err(e) => {
                proof {
                    assert(self.wire().len() >= self.description.wire().len());
                }
                return Err(e);
            },
        };
        let mut total: usize = n0;
        if self.levels > MAX_LEN {
            return Err(CodecError::InvalidInput);
        }
        proof {
            lemma_le_bytes_len((self.levels as u16) as nat, 2);
        }
        let n1: usize = 2;
        if n1 > usize::MAX - total {
            proof {
                assert(self.wire().len() >= (self.description.wire() + (self.levels as u16).wire()).len());
            }
            return Err(CodecError::InvalidInput);
        }
        total = total + n1;
        assert(total == (self.description.wire() + (self.levels as u16).wire()).len());
        if self.proofs > MAX_LEN {
            return Err(CodecError::InvalidInput);
        }
        proof {
            lemma_le_bytes_len((self.proofs as u16) as nat, 2);
        }
        let n2: usize = 2;
        if n2 > usize::MAX - total {
            proof {
                assert(self.wire().len() >= (self.description.wire() + (self.levels as u16).wire() + (self.proofs as u16).wire()).len());
            }
            return Err(CodecError::InvalidInput);
        }
        total = total + n2;
        assert(total == (self.description.wire() + (self.levels as u16).wire() + (self.proofs as u16).wire()).len());
        let n3 = match self.nodes.size() {
            Ok(n) => n,
            Err(e) => {
                proof {
                    assert(self.wire().len() >= (self.description.wire() + (self.levels as u16).wire() + (self.proofs as u16).wire() + self.nodes.wire()).len());
                }
                return Err(e);
            },
        };
        if n3 > usize::MAX - total {
            proof {
                assert(self.wire().len() >= (self.description.wire() + (self.levels as u16).wire() + (self.proofs as u16).wire() + self.nodes.wire()).len());
            }
            return Err(CodecError::InvalidInput);
        }
        total = total + n3;
        assert(total == (self.description.wire() + (self.levels as u16).wire() + (self.proofs as u16).wire() + self.nodes.wire()).len());
        Ok(total)
    }

    fn encode_into(&self, out: &mut Vec<u8>) -> (r: Result<(), CodecError>) {
        let start_len = out.len();
        if self.levels > MAX_LEN || self.proofs > MAX_LEN {
            return Err(CodecError::InvalidInput);
        }
        match self.description.encode_into(out) {
            Ok(()) => {},
            Err(e) => {
                out.truncate(start_len);
                return Err(e);
            },
        }
        assert(out@ =~= old(out)@ + self.description.wire());
        match (self.levels as u16).encode_into(out) {
            Ok(()) => {},
            Err(e) => {
                out.truncate(start_len);
                return Err(e);
            },
        }
        assert(out@ =~= old(out)@ + (self.description.wire() + (self.levels as u16).wire()));
        match (self.proofs as u16).encode_into(out) {
            Ok(()) => {},
            Err(e) => {
                out.truncate(start_len);
                return Err(e);
            },
        }
        assert(out@ =~= old(out)@ + (self.description.wire() + (self.levels as u16).wire() + (self.proofs as u16).wire()));
        match self.nodes.encode_into(out) {
            Ok(()) => {},
            Err(e) => {
                out.truncate(start_len);
                return Err(e);
            },
        }
        assert(out@ =~= old(out)@ + (self.description.wire() + (self.levels as u16).wire() + (self.proofs as u16).wire() + self.nodes.wire()));
        Ok(())
    }
}

/// The fields of a record of proofs as they stand on the wire: the description,
/// the two counts, and the nodes as a sequence of index-hash pairs.
pub type ProofsWire = (Vec<u8>, u16, u16, Vec<(usize, Hash)>);

impl Proofs {
    /// Reads proofs from the front of `reader`: the description as a byte string,
    /// the two counts, then the nodes with the layout of a map, inserted in order
    /// (a later node for an index replacing an earlier one).
    pub fn decode_with_len_from(reader: &mut ByteReader) -> (r: Result<(Proofs, usize), CodecError>)
        ensures
            match r {
                Ok((p, n)) => exists|t: ProofsWire|
                    #[trigger] t.encodable() && old(reader)@ == t.wire() + final(reader)@ && n
                        == t.wire().len() && p.description@ == t.0@ && p.levels == t.1 as usize
                        && p.proofs == t.2 as usize && p.nodes@ == map_of(t.3@),
                Err(e) => !decodable::<ProofsWire>(old(reader)@) && e == <ProofsWire>::decode_error(
                    old(reader)@,
                ),
            },
    {
        let (t, n) = match <ProofsWire>::decode_with_len_from(reader) {
            Ok(p) => p,
            Err(e) => return Err(e),
        };
        let ghost tg = t;
        let (description, levels, proofs, entries) = t;
        let ghost e = entries@;
        proof {
            usize::lemma_obeys_cmp();
        }
        let mut nodes: BTreeMap<usize, Hash> = BTreeMap::new();
        for p in it: entries.into_iter()
            invariant
                it.seq() == e,
                nodes@ == map_of(e.take(it.index() as int)),
                obeys_cmp::<usize>(),
        {
            let ghost i = it.index() as int;
            let (k, v) = p;
            nodes.insert(k, v);
            proof {
                assert(e.take(i + 1).drop_last() =~= e.take(i));
            }
        }
        assert(e.take(e.len() as int) =~= e);
        Ok((Proofs { description, levels: levels as usize, proofs: proofs as usize, nodes }, n))
    }

    /// Reads proofs from the front of `buf`; see `decode_with_len_from`.
    pub fn decode(buf: &[u8]) -> (r: Result<Proofs, CodecError>)
        ensures
            match r {
                Ok(p) => exists|t: ProofsWire|
                    #[trigger] t.encodable() && buf@ == t.wire() + buf@.skip(t.wire().len() as int)
                        && p.description@ == t.0@ && p.levels == t.1 as usize && p.proofs
                        == t.2 as usize && p.nodes@ == map_of(t.3@),
                Err(e) => !decodable::<ProofsWire>(buf@) && e == <ProofsWire>::decode_error(buf@),
            },
    {
        let mut reader = ByteReader::new(buf);
        match Proofs::decode_with_len_from(&mut reader) {
            Ok((p, n)) => {
                proof {
                    let t = choose|t: ProofsWire|
                        #[trigger] t.encodable() && buf@ == t.wire() + reader@ && n == t.wire().len()
                            && p.description@ == t.0@ && p.levels == t.1 as usize && p.proofs
                            == t.2 as usize && p.nodes@ == map_of(t.3@);
                    assert(reader@ =~= buf@.skip(t.wire().len() as int));
                }
                Ok(p)
            },
            Err(e) => Err(e),
        }
    }
}
} // verus!
