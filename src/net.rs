//! Network addresses, as plain values: an IPv4 or IPv6 address is its octets, a
//! socket address adds a port (and, for IPv6, flow information and a scope id).
use vstd::prelude::*;
use crate::reader::ByteReader;
use crate::{
    after, decodable, lemma_after, lemma_proper_prefix_undecodable, CodecError, Decode, Encode,
};

verus! {

/// An IPv4 address.
#[derive(Clone, Copy, Debug, PartialEq, Eq)]
pub struct Ipv4Addr {
    pub octets: [u8; 4],
}

/// An IPv6 address.
#[derive(Clone, Copy, Debug, PartialEq, Eq)]
pub struct Ipv6Addr {
    pub octets: [u8; 16],
}

/// An IPv4 socket address.
#[derive(Clone, Copy, Debug, PartialEq, Eq)]
pub struct SocketAddrV4 {
    pub ip: Ipv4Addr,
    pub port: u16,
}

/// An IPv6 socket address.
#[derive(Clone, Copy, Debug, PartialEq, Eq)]
pub struct SocketAddrV6 {
    pub ip: Ipv6Addr,
    pub port: u16,
    pub flowinfo: u32,
    pub scope_id: u32,
}








impl DeepView for Ipv4Addr {
    type V = <[u8; 4] as DeepView>::V;

    open spec fn deep_view(&self) -> Self::V {
        self.octets.deep_view()
    }
}

/// Exactly the bytes of its one field.
impl Encode for Ipv4Addr {
    open spec fn encodable(&self) -> bool {
        self.octets.encodable()
    }

    open spec fn wire(&self) -> Seq<u8> {
        self.octets.wire()
    }

    open spec fn fast_exact(&self) -> bool {
        self.octets.fast_exact()
    }

    open spec fn fast_len(&self) -> nat {
        self.octets.fast_len()
    }

    fn fast_size(&self) -> (r: usize) {
        self.octets.fast_size()
    }

    fn size(&self) -> (r: Result<usize, CodecError>) {
        self.octets.size()
    }

    fn encode_into(&self, out: &mut Vec<u8>) -> (r: Result<(), CodecError>) {
        self.octets.encode_into(out)
    }
}

impl Decode for Ipv4Addr {
    open spec fn decode_error(input: Seq<u8>) -> CodecError {
        <[u8; 4]>::decode_error(input)
    }

    fn decode_with_len_from(reader: &mut ByteReader) -> (r: Result<(Self, usize), CodecError>) {
        match <[u8; 4]>::decode_with_len_from(reader) {
            Ok((x, n)) => Ok((Ipv4Addr { octets: x }, n)),
            Err(e) => {
                proof {
                    assert forall|v: Ipv4Addr, rest: Seq<u8>| #[trigger] v.encodable() && old(reader)@
                        == #[trigger] (v.wire() + rest) implies false by {
                        assert(v.octets.encodable());
                    }
                }
                Err(e)
            },
        }
    }

    fn never_empty() -> (r: bool) {
        let r = <[u8; 4]>::never_empty();
        proof {
            if r {
                assert forall|v: Self| #[trigger] v.encodable() implies v.wire().len() >= 1 by {
                    assert(v.octets.encodable());
                }
            } else {
                let x = choose|x: [u8; 4]| #[trigger] x.encodable() && !(x.wire().len() >= 1);
                let w = Ipv4Addr { octets: x };
                assert(w.encodable() && !(w.wire().len() >= 1));
            }
        }
        r
    }

    proof fn lemma_truncated(v: Self, k: nat) {
        <[u8; 4]>::lemma_truncated(v.octets, k);
    }

    proof fn lemma_prefix_unique(a: Self, b: Self, ra: Seq<u8>, rb: Seq<u8>) {
        <[u8; 4]>::lemma_prefix_unique(a.octets, b.octets, ra, rb);
    }
}

impl DeepView for Ipv6Addr {
    type V = <[u8; 16] as DeepView>::V;

    open spec fn deep_view(&self) -> Self::V {
        self.octets.deep_view()
    }
}

/// Exactly the bytes of its one field.
impl Encode for Ipv6Addr {
    open spec fn encodable(&self) -> bool {
        self.octets.encodable()
    }

    open spec fn wire(&self) -> Seq<u8> {
        self.octets.wire()
    }

    open spec fn fast_exact(&self) -> bool {
        self.octets.fast_exact()
    }

    open spec fn fast_len(&self) -> nat {
        self.octets.fast_len()
    }

    fn fast_size(&self) -> (r: usize) {
        self.octets.fast_size()
    }

    fn size(&self) -> (r: Result<usize, CodecError>) {
        self.octets.size()
    }

    fn encode_into(&self, out: &mut Vec<u8>) -> (r: Result<(), CodecError>) {
        self.octets.encode_into(out)
    }
}

impl Decode for Ipv6Addr {
    open spec fn decode_error(input: Seq<u8>) -> CodecError {
        <[u8; 16]>::decode_error(input)
    }

    fn decode_with_len_from(reader: &mut ByteReader) -> (r: Result<(Self, usize), CodecError>) {
        match <[u8; 16]>::decode_with_len_from(reader) {
            Ok((x, n)) => Ok((Ipv6Addr { octets: x }, n)),
            Err(e) => {
                proof {
                    assert forall|v: Ipv6Addr, rest: Seq<u8>| #[trigger] v.encodable() && old(reader)@
                        == #[trigger] (v.wire() + rest) implies false by {
                        assert(v.octets.encodable());
                    }
                }
                Err(e)
            },
        }
    }

    fn never_empty() -> (r: bool) {
        let r = <[u8; 16]>::never_empty();
        proof {
            if r {
                assert forall|v: Self| #[trigger] v.encodable() implies v.wire().len() >= 1 by {
                    assert(v.octets.encodable());
                }
            } else {
                let x = choose|x: [u8; 16]| #[trigger] x.encodable() && !(x.wire().len() >= 1);
                let w = Ipv6Addr { octets: x };
                assert(w.encodable() && !(w.wire().len() >= 1));
            }
        }
        r
    }

    proof fn lemma_truncated(v: Self, k: nat) {
        <[u8; 16]>::lemma_truncated(v.octets, k);
    }

    proof fn lemma_prefix_unique(a: Self, b: Self, ra: Seq<u8>, rb: Seq<u8>) {
        <[u8; 16]>::lemma_prefix_unique(a.octets, b.octets, ra, rb);
    }
}

impl DeepView for SocketAddrV4 {
    type V = (<Ipv4Addr as DeepView>::V, <u16 as DeepView>::V);

    open spec fn deep_view(&self) -> Self::V {
        (self.ip.deep_view(), self.port.deep_view())
    }
}

impl Encode for SocketAddrV4 {
    open spec fn encodable(&self) -> bool {
        self.ip.encodable() && self.port.encodable()
    }

    open spec fn wire(&self) -> Seq<u8> {
        self.ip.wire() + self.port.wire()
    }

    open spec fn fast_exact(&self) -> bool {
        self.ip.fast_exact() && self.port.fast_exact()
    }

    open spec fn fast_len(&self) -> nat {
        self.ip.fast_len() + self.port.fast_len()
    }

    fn fast_size(&self) -> (r: usize) {
        let mut total: usize = self.ip.fast_size();
        proof {
            if self.encodable() && self.fast_exact() && self.wire().len() <= usize::MAX {
                assert(self.wire().len() >= self.ip.wire().len());
            }
        }
        let f1: usize = self.port.fast_size();
        if f1 > usize::MAX - total {
            proof {
                if self.encodable() && self.fast_exact() && self.wire().len() <= usize::MAX {
                    assert(self.wire().len() >= (self.ip.wire() + self.port.wire()).len());
                }
            }
            return 0;
        }
        total = total + f1;
        proof {
            if self.encodable() && self.fast_exact() && self.wire().len() <= usize::MAX {
                assert(self.wire().len() >= (self.ip.wire() + self.port.wire()).len());
                assert(total == (self.ip.wire() + self.port.wire()).len());
            }
        }
        total
    }

    fn size(&self) -> (r: Result<usize, CodecError>) {
        let n0 = match self.ip.size() {
            Ok(n) => n,
            Err(e) => {
                proof {
                    assert(self.wire().len() >= self.ip.wire().len());
                }
                return Err(e);
            },
        };
        let mut total: usize = n0;
        let n1 = match self.port.size() {
            Ok(n) => n,
            Err(e) => {
                proof {
                    assert(self.wire().len() >= (self.ip.wire() + self.port.wire()).len());
                }
                return Err(e);
            },
        };
        if n1 > usize::MAX - total {
            proof {
                assert(self.wire().len() >= (self.ip.wire() + self.port.wire()).len());
            }
            return Err(CodecError::InvalidInput);
        }
        total = total + n1;
        assert(total == (self.ip.wire() + self.port.wire()).len());
        Ok(total)
    }

    fn encode_into(&self, out: &mut Vec<u8>) -> (r: Result<(), CodecError>) {
        let start_len = out.len();
        match self.ip.encode_into(out) {
            Ok(()) => {},
            Err(e) => {
                out.truncate(start_len);
                return Err(e);
            },
        }
        assert(out@ =~= old(out)@ + self.ip.wire());
        match self.port.encode_into(out) {
            Ok(()) => {},
            Err(e) => {
                out.truncate(start_len);
                return Err(e);
            },
        }
        assert(out@ =~= old(out)@ + (self.ip.wire() + self.port.wire()));
        Ok(())
    }
}

impl Decode for SocketAddrV4 {
    open spec fn decode_error(input: Seq<u8>) -> CodecError {
        if !decodable::<Ipv4Addr>(input) {
            <Ipv4Addr>::decode_error(input)
        } else {
            <u16>::decode_error(after::<Ipv4Addr>(input))
        }
    }

    fn decode_with_len_from(reader: &mut ByteReader) -> (r: Result<(Self, usize), CodecError>) {
        let ghost start = reader@;
        proof {
            reader.lemma_len_fits();
        }
        let ghost m0 = reader@;
        let (x0, n0) = match <Ipv4Addr>::decode_with_len_from(reader) {
            Ok(p) => p,
            Err(e) => {
                proof {
                    assert forall|v: SocketAddrV4, rest: Seq<u8>| #[trigger] v.encodable() && start
                        == #[trigger] (v.wire() + rest) implies false by {
                        assert(m0 =~= v.ip.wire() + (v.port.wire() + rest));
                        assert(v.ip.encodable());
                    }
                }
                return Err(e);
            },
        };
        let ghost m1 = reader@;
        let (x1, n1) = match <u16>::decode_with_len_from(reader) {
            Ok(p) => p,
            Err(e) => {
                proof {
                    lemma_after::<Ipv4Addr>(m0, x0, m1);
                    assert forall|v: SocketAddrV4, rest: Seq<u8>| #[trigger] v.encodable() && start
                        == #[trigger] (v.wire() + rest) implies false by {
                        assert(m0 =~= v.ip.wire() + (v.port.wire() + rest));
                        <Ipv4Addr>::lemma_prefix_unique(x0, v.ip, m1, v.port.wire() + rest);
                        assert(m1 =~= (x0.wire() + m1).skip(x0.wire().len() as int));
                        assert(m1 =~= (v.ip.wire() + (v.port.wire() + rest)).skip(v.ip.wire().len() as int));
                        assert(m1 =~= v.port.wire() + rest);
                        assert(v.port.encodable());
                    }
                }
                return Err(e);
            },
        };
        let v = SocketAddrV4 { ip: x0, port: x1 };
        assert(start =~= v.wire() + reader@);
        Ok((v, n0 + n1))
    }

    fn never_empty() -> (r: bool) {
        let r0 = <Ipv4Addr>::never_empty();
        let r1 = <u16>::never_empty();
        proof {
            if r0 || r1 {
                assert forall|v: Self| #[trigger] v.encodable() implies v.wire().len() >= 1 by {
                    if r0 {
                        assert(v.ip.encodable());
                    }
                    if r1 {
                        assert(v.port.encodable());
                    }
                }
            } else {
                let w0 = choose|x: Ipv4Addr| #[trigger] x.encodable() && !(x.wire().len() >= 1);
                let w1 = choose|x: u16| #[trigger] x.encodable() && !(x.wire().len() >= 1);
                let w = SocketAddrV4 { ip: w0, port: w1 };
                assert(w.encodable() && !(w.wire().len() >= 1));
            }
        }
        r0 || r1
    }

    proof fn lemma_truncated(v: Self, k: nat) {
        if (k as int) < v.ip.wire().len() {
            assert(v.wire().take(k as int) =~= v.ip.wire().take(k as int));
            lemma_proper_prefix_undecodable::<Ipv4Addr>(v.ip, (k as int) as nat);
            <Ipv4Addr>::lemma_truncated(v.ip, (k as int) as nat);
        } else {
            assert(v.wire().take(k as int) =~= v.ip.wire() + (v.port.wire()).take(k as int - v.ip.wire().len()));
            lemma_after::<Ipv4Addr>(v.wire().take(k as int), v.ip, (v.port.wire()).take(k as int - v.ip.wire().len()));
            <u16>::lemma_truncated(v.port, (k as int - v.ip.wire().len()) as nat);
        }
    }

    proof fn lemma_prefix_unique(a: Self, b: Self, ra: Seq<u8>, rb: Seq<u8>) {
        assert(a.wire() + ra =~= a.ip.wire() + (a.port.wire() + ra));
        assert(b.wire() + rb =~= b.ip.wire() + (b.port.wire() + rb));
        <Ipv4Addr>::lemma_prefix_unique(a.ip, b.ip, a.port.wire() + ra, b.port.wire() + rb);
        assert(a.port.wire() + ra =~= (a.ip.wire() + (a.port.wire() + ra)).skip(a.ip.wire().len() as int));
        assert(b.port.wire() + rb =~= (b.ip.wire() + (b.port.wire() + rb)).skip(b.ip.wire().len() as int));
        <u16>::lemma_prefix_unique(a.port, b.port, ra, rb);
        assert(ra =~= (a.port.wire() + ra).skip(a.port.wire().len() as int));
        assert(rb =~= (b.port.wire() + rb).skip(b.port.wire().len() as int));
    }
}

impl DeepView for SocketAddrV6 {
    type V = (<Ipv6Addr as DeepView>::V, <u16 as DeepView>::V, <u32 as DeepView>::V, <u32 as DeepView>::V);

    open spec fn deep_view(&self) -> Self::V {
        (self.ip.deep_view(), self.port.deep_view(), self.flowinfo.deep_view(), self.scope_id.deep_view())
    }
}

impl Encode for SocketAddrV6 {
    open spec fn encodable(&self) -> bool {
        self.ip.encodable() && self.port.encodable() && self.flowinfo.encodable() && self.scope_id.encodable()
    }

    open spec fn wire(&self) -> Seq<u8> {
        self.ip.wire() + self.port.wire() + self.flowinfo.wire() + self.scope_id.wire()
    }

    open spec fn fast_exact(&self) -> bool {
        self.ip.fast_exact() && self.port.fast_exact() && self.flowinfo.fast_exact() && self.scope_id.fast_exact()
    }

    open spec fn fast_len(&self) -> nat {
        self.ip.fast_len() + self.port.fast_len() + self.flowinfo.fast_len() + self.scope_id.fast_len()
    }

    fn fast_size(&self) -> (r: usize) {
        let mut total: usize = self.ip.fast_size();
        proof {
            if self.encodable() && self.fast_exact() && self.wire().len() <= usize::MAX {
                assert(self.wire().len() >= self.ip.wire().len());
            }
        }
        let f1: usize = self.port.fast_size();
        if f1 > usize::MAX - total {
            proof {
                if self.encodable() && self.fast_exact() && self.wire().len() <= usize::MAX {
                    assert(self.wire().len() >= (self.ip.wire() + self.port.wire()).len());
                }
            }
            return 0;
        }
        total = total + f1;
        proof {
            if self.encodable() && self.fast_exact() && self.wire().len() <= usize::MAX {
                assert(self.wire().len() >= (self.ip.wire() + self.port.wire()).len());
                assert(total == (self.ip.wire() + self.port.wire()).len());
            }
        }
        let f2: usize = self.flowinfo.fast_size();
        if f2 > usize::MAX - total {
            proof {
                if self.encodable() && self.fast_exact() && self.wire().len() <= usize::MAX {
                    assert(self.wire().len() >= (self.ip.wire() + self.port.wire() + self.flowinfo.wire()).len());
                }
            }
            return 0;
        }
        total = total + f2;
        proof {
            if self.encodable() && self.fast_exact() && self.wire().len() <= usize::MAX {
                assert(self.wire().len() >= (self.ip.wire() + self.port.wire() + self.flowinfo.wire()).len());
                assert(total == (self.ip.wire() + self.port.wire() + self.flowinfo.wire()).len());
            }
        }
        let f3: usize = self.scope_id.fast_size();
        if f3 > usize::MAX - total {
            proof {
                if self.encodable() && self.fast_exact() && self.wire().len() <= usize::MAX {
                    assert(self.wire().len() >= (self.ip.wire() + self.port.wire() + self.flowinfo.wire() + self.scope_id.wire()).len());
                }
            }
            return 0;
        }
        total = total + f3;
        proof {
            if self.encodable() && self.fast_exact() && self.wire().len() <= usize::MAX {
                assert(self.wire().len() >= (self.ip.wire() + self.port.wire() + self.flowinfo.wire() + self.scope_id.wire()).len());
                assert(total == (self.ip.wire() + self.port.wire() + self.flowinfo.wire() + self.scope_id.wire()).len());
            }
        }
        total
    }

    fn size(&self) -> (r: Result<usize, CodecError>) {
        let n0 = match self.ip.size() {
            Ok(n) => n,
            Err(e) => {
                proof {
                    assert(self.wire().len() >= self.ip.wire().len());
                }
                return Err(e);
            },
        };
        let mut total: usize = n0;
        let n1 = match self.port.size() {
            Ok(n) => n,
            Err(e) => {
                proof {
                    assert(self.wire().len() >= (self.ip.wire() + self.port.wire()).len());
                }
                return Err(e);
            },
        };
        if n1 > usize::MAX - total {
            proof {
                assert(self.wire().len() >= (self.ip.wire() + self.port.wire()).len());
            }
            return Err(CodecError::InvalidInput);
        }
        total = total + n1;
        assert(total == (self.ip.wire() + self.port.wire()).len());
        let n2 = match self.flowinfo.size() {
            Ok(n) => n,
            Err(e) => {
                proof {
                    assert(self.wire().len() >= (self.ip.wire() + self.port.wire() + self.flowinfo.wire()).len());
                }
                return Err(e);
            },
        };
        if n2 > usize::MAX - total {
            proof {
                assert(self.wire().len() >= (self.ip.wire() + self.port.wire() + self.flowinfo.wire()).len());
            }
            return Err(CodecError::InvalidInput);
        }
        total = total + n2;
        assert(total == (self.ip.wire() + self.port.wire() + self.flowinfo.wire()).len());
        let n3 = match self.scope_id.size() {
            Ok(n) => n,
            Err(e) => {
                proof {
                    assert(self.wire().len() >= (self.ip.wire() + self.port.wire() + self.flowinfo.wire() + self.scope_id.wire()).len());
                }
                return Err(e);
            },
        };
        if n3 > usize::MAX - total {
            proof {
                assert(self.wire().len() >= (self.ip.wire() + self.port.wire() + self.flowinfo.wire() + self.scope_id.wire()).len());
            }
            return Err(CodecError::InvalidInput);
        }
        total = total + n3;
        assert(total == (self.ip.wire() + self.port.wire() + self.flowinfo.wire() + self.scope_id.wire()).len());
        Ok(total)
    }

    fn encode_into(&self, out: &mut Vec<u8>) -> (r: Result<(), CodecError>) {
        let start_len = out.len();
        match self.ip.encode_into(out) {
            Ok(()) => {},
            Err(e) => {
                out.truncate(start_len);
                return Err(e);
            },
        }
        assert(out@ =~= old(out)@ + self.ip.wire());
        match self.port.encode_into(out) {
            Ok(()) => {},
            Err(e) => {
                out.truncate(start_len);
                return Err(e);
            },
        }
        assert(out@ =~= old(out)@ + (self.ip.wire() + self.port.wire()));
        match self.flowinfo.encode_into(out) {
            Ok(()) => {},
            Err(e) => {
                out.truncate(start_len);
                return Err(e);
            },
        }
        assert(out@ =~= old(out)@ + (self.ip.wire() + self.port.wire() + self.flowinfo.wire()));
        match self.scope_id.encode_into(out) {
            Ok(()) => {},
            Err(e) => {
                out.truncate(start_len);
                return Err(e);
            },
        }
        assert(out@ =~= old(out)@ + (self.ip.wire() + self.port.wire() + self.flowinfo.wire() + self.scope_id.wire()));
        Ok(())
    }
}

impl Decode for SocketAddrV6 {
    open spec fn decode_error(input: Seq<u8>) -> CodecError {
        if !decodable::<Ipv6Addr>(input) {
            <Ipv6Addr>::decode_error(input)
        } else if !decodable::<u16>(after::<Ipv6Addr>(input)) {
            <u16>::decode_error(after::<Ipv6Addr>(input))
        } else if !decodable::<u32>(after::<u16>(after::<Ipv6Addr>(input))) {
            <u32>::decode_error(after::<u16>(after::<Ipv6Addr>(input)))
        } else {
            <u32>::decode_error(after::<u32>(after::<u16>(after::<Ipv6Addr>(input))))
        }
    }

    fn decode_with_len_from(reader: &mut ByteReader) -> (r: Result<(Self, usize), CodecError>) {
        let ghost start = reader@;
        proof {
            reader.lemma_len_fits();
        }
        let ghost m0 = reader@;
        let (x0, n0) = match <Ipv6Addr>::decode_with_len_from(reader) {
            Ok(p) => p,
            Err(e) => {
                proof {
                    assert forall|v: SocketAddrV6, rest: Seq<u8>| #[trigger] v.encodable() && start
                        == #[trigger] (v.wire() + rest) implies false by {
                        assert(m0 =~= v.ip.wire() + (v.port.wire() + v.flowinfo.wire() + v.scope_id.wire() + rest));
                        assert(v.ip.encodable());
                    }
                }
                return Err(e);
            },
        };
        let ghost m1 = reader@;
        let (x1, n1) = match <u16>::decode_with_len_from(reader) {
            Ok(p) => p,
            Err(e) => {
                proof {
                    lemma_after::<Ipv6Addr>(m0, x0, m1);
                    assert forall|v: SocketAddrV6, rest: Seq<u8>| #[trigger] v.encodable() && start
                        == #[trigger] (v.wire() + rest) implies false by {
                        assert(m0 =~= v.ip.wire() + (v.port.wire() + v.flowinfo.wire() + v.scope_id.wire() + rest));
                        <Ipv6Addr>::lemma_prefix_unique(x0, v.ip, m1, v.port.wire() + v.flowinfo.wire() + v.scope_id.wire() + rest);
                        assert(m1 =~= (x0.wire() + m1).skip(x0.wire().len() as int));
                        assert(m1 =~= (v.ip.wire() + (v.port.wire() + v.flowinfo.wire() + v.scope_id.wire() + rest)).skip(v.ip.wire().len() as int));
                        assert(m1 =~= v.port.wire() + (v.flowinfo.wire() + v.scope_id.wire() + rest));
                        assert(v.port.encodable());
                    }
                }
                return Err(e);
            },
        };
        let ghost m2 = reader@;
        let (x2, n2) = match <u32>::decode_with_len_from(reader) {
            Ok(p) => p,
            Err(e) => {
                proof {
                    lemma_after::<Ipv6Addr>(m0, x0, m1);
                    lemma_after::<u16>(m1, x1, m2);
                    assert forall|v: SocketAddrV6, rest: Seq<u8>| #[trigger] v.encodable() && start
                        == #[trigger] (v.wire() + rest) implies false by {
                        assert(m0 =~= v.ip.wire() + (v.port.wire() + v.flowinfo.wire() + v.scope_id.wire() + rest));
                        <Ipv6Addr>::lemma_prefix_unique(x0, v.ip, m1, v.port.wire() + v.flowinfo.wire() + v.scope_id.wire() + rest);
                        assert(m1 =~= (x0.wire() + m1).skip(x0.wire().len() as int));
                        assert(m1 =~= (v.ip.wire() + (v.port.wire() + v.flowinfo.wire() + v.scope_id.wire() + rest)).skip(v.ip.wire().len() as int));
                        assert(m1 =~= v.port.wire() + (v.flowinfo.wire() + v.scope_id.wire() + rest));
                        <u16>::lemma_prefix_unique(x1, v.port, m2, v.flowinfo.wire() + v.scope_id.wire() + rest);
                        assert(m2 =~= (x1.wire() + m2).skip(x1.wire().len() as int));
                        assert(m2 =~= (v.port.wire() + (v.flowinfo.wire() + v.scope_id.wire() + rest)).skip(v.port.wire().len() as int));
                        assert(m2 =~= v.flowinfo.wire() + (v.scope_id.wire() + rest));
                        assert(v.flowinfo.encodable());
                    }
                }
                return Err(e);
            },
        };
        let ghost m3 = reader@;
        let (x3, n3) = match <u32>::decode_with_len_from(reader) {
            Ok(p) => p,
            Err(e) => {
                proof {
                    lemma_after::<Ipv6Addr>(m0, x0, m1);
                    lemma_after::<u16>(m1, x1, m2);
                    lemma_after::<u32>(m2, x2, m3);
                    assert forall|v: SocketAddrV6, rest: Seq<u8>| #[trigger] v.encodable() && start
                        == #[trigger] (v.wire() + rest) implies false by {
                        assert(m0 =~= v.ip.wire() + (v.port.wire() + v.flowinfo.wire() + v.scope_id.wire() + rest));
                        <Ipv6Addr>::lemma_prefix_unique(x0, v.ip, m1, v.port.wire() + v.flowinfo.wire() + v.scope_id.wire() + rest);
                        assert(m1 =~= (x0.wire() + m1).skip(x0.wire().len() as int));
                        assert(m1 =~= (v.ip.wire() + (v.port.wire() + v.flowinfo.wire() + v.scope_id.wire() + rest)).skip(v.ip.wire().len() as int));
                        assert(m1 =~= v.port.wire() + (v.flowinfo.wire() + v.scope_id.wire() + rest));
                        <u16>::lemma_prefix_unique(x1, v.port, m2, v.flowinfo.wire() + v.scope_id.wire() + rest);
                        assert(m2 =~= (x1.wire() + m2).skip(x1.wire().len() as int));
                        assert(m2 =~= (v.port.wire() + (v.flowinfo.wire() + v.scope_id.wire() + rest)).skip(v.port.wire().len() as int));
                        assert(m2 =~= v.flowinfo.wire() + (v.scope_id.wire() + rest));
                        <u32>::lemma_prefix_unique(x2, v.flowinfo, m3, v.scope_id.wire() + rest);
                        assert(m3 =~= (x2.wire() + m3).skip(x2.wire().len() as int));
                        assert(m3 =~= (v.flowinfo.wire() + (v.scope_id.wire() + rest)).skip(v.flowinfo.wire().len() as int));
                        assert(m3 =~= v.scope_id.wire() + rest);
                        assert(v.scope_id.encodable());
                    }
                }
                return Err(e);
            },
        };
        let v = SocketAddrV6 { ip: x0, port: x1, flowinfo: x2, scope_id: x3 };
        assert(start =~= v.wire() + reader@);
        Ok((v, n0 + n1 + n2 + n3))
    }

    fn never_empty() -> (r: bool) {
        let r0 = <Ipv6Addr>::never_empty();
        let r1 = <u16>::never_empty();
        let r2 = <u32>::never_empty();
        let r3 = <u32>::never_empty();
        proof {
            if r0 || r1 || r2 || r3 {
                assert forall|v: Self| #[trigger] v.encodable() implies v.wire().len() >= 1 by {
                    if r0 {
                        assert(v.ip.encodable());
                    }
                    if r1 {
                        assert(v.port.encodable());
                    }
                    if r2 {
                        assert(v.flowinfo.encodable());
                    }
                    if r3 {
                        assert(v.scope_id.encodable());
                    }
                }
            } else {
                let w0 = choose|x: Ipv6Addr| #[trigger] x.encodable() && !(x.wire().len() >= 1);
                let w1 = choose|x: u16| #[trigger] x.encodable() && !(x.wire().len() >= 1);
                let w2 = choose|x: u32| #[trigger] x.encodable() && !(x.wire().len() >= 1);
                let w3 = choose|x: u32| #[trigger] x.encodable() && !(x.wire().len() >= 1);
                let w = SocketAddrV6 { ip: w0, port: w1, flowinfo: w2, scope_id: w3 };
                assert(w.encodable() && !(w.wire().len() >= 1));
            }
        }
        r0 || r1 || r2 || r3
    }

    proof fn lemma_truncated(v: Self, k: nat) {
        if (k as int) < v.ip.wire().len() {
            assert(v.wire().take(k as int) =~= v.ip.wire().take(k as int));
            lemma_proper_prefix_undecodable::<Ipv6Addr>(v.ip, (k as int) as nat);
            <Ipv6Addr>::lemma_truncated(v.ip, (k as int) as nat);
        } else {
            assert(v.wire().take(k as int) =~= v.ip.wire() + (v.port.wire() + v.flowinfo.wire() + v.scope_id.wire()).take(k as int - v.ip.wire().len()));
            lemma_after::<Ipv6Addr>(v.wire().take(k as int), v.ip, (v.port.wire() + v.flowinfo.wire() + v.scope_id.wire()).take(k as int - v.ip.wire().len()));
            if (k as int - v.ip.wire().len()) < v.port.wire().len() {
                assert((v.port.wire() + v.flowinfo.wire() + v.scope_id.wire()).take(k as int - v.ip.wire().len()) =~= v.port.wire().take(k as int - v.ip.wire().len()));
                lemma_proper_prefix_undecodable::<u16>(v.port, (k as int - v.ip.wire().len()) as nat);
                <u16>::lemma_truncated(v.port, (k as int - v.ip.wire().len()) as nat);
            } else {
                assert((v.port.wire() + v.flowinfo.wire() + v.scope_id.wire()).take(k as int - v.ip.wire().len()) =~= v.port.wire() + (v.flowinfo.wire() + v.scope_id.wire()).take(k as int - v.ip.wire().len() - v.port.wire().len()));
                lemma_after::<u16>((v.port.wire() + v.flowinfo.wire() + v.scope_id.wire()).take(k as int - v.ip.wire().len()), v.port, (v.flowinfo.wire() + v.scope_id.wire()).take(k as int - v.ip.wire().len() - v.port.wire().len()));
                if (k as int - v.ip.wire().len() - v.port.wire().len()) < v.flowinfo.wire().len() {
                    assert((v.flowinfo.wire() + v.scope_id.wire()).take(k as int - v.ip.wire().len() - v.port.wire().len()) =~= v.flowinfo.wire().take(k as int - v.ip.wire().len() - v.port.wire().len()));
                    lemma_proper_prefix_undecodable::<u32>(v.flowinfo, (k as int - v.ip.wire().len() - v.port.wire().len()) as nat);
                    <u32>::lemma_truncated(v.flowinfo, (k as int - v.ip.wire().len() - v.port.wire().len()) as nat);
                } else {
                    assert((v.flowinfo.wire() + v.scope_id.wire()).take(k as int - v.ip.wire().len() - v.port.wire().len()) =~= v.flowinfo.wire() + (v.scope_id.wire()).take(k as int - v.ip.wire().len() - v.port.wire().len() - v.flowinfo.wire().len()));
                    lemma_after::<u32>((v.flowinfo.wire() + v.scope_id.wire()).take(k as int - v.ip.wire().len() - v.port.wire().len()), v.flowinfo, (v.scope_id.wire()).take(k as int - v.ip.wire().len() - v.port.wire().len() - v.flowinfo.wire().len()));
                    <u32>::lemma_truncated(v.scope_id, (k as int - v.ip.wire().len() - v.port.wire().len() - v.flowinfo.wire().len()) as nat);
                }
            }
        }
    }

    proof fn lemma_prefix_unique(a: Self, b: Self, ra: Seq<u8>, rb: Seq<u8>) {
        assert(a.wire() + ra =~= a.ip.wire() + (a.port.wire() + a.flowinfo.wire() + a.scope_id.wire() + ra));
        assert(b.wire() + rb =~= b.ip.wire() + (b.port.wire() + b.flowinfo.wire() + b.scope_id.wire() + rb));
        <Ipv6Addr>::lemma_prefix_unique(a.ip, b.ip, a.port.wire() + a.flowinfo.wire() + a.scope_id.wire() + ra, b.port.wire() + b.flowinfo.wire() + b.scope_id.wire() + rb);
        assert(a.port.wire() + a.flowinfo.wire() + a.scope_id.wire() + ra =~= (a.ip.wire() + (a.port.wire() + a.flowinfo.wire() + a.scope_id.wire() + ra)).skip(a.ip.wire().len() as int));
        assert(b.port.wire() + b.flowinfo.wire() + b.scope_id.wire() + rb =~= (b.ip.wire() + (b.port.wire() + b.flowinfo.wire() + b.scope_id.wire() + rb)).skip(b.ip.wire().len() as int));
        assert(a.port.wire() + a.flowinfo.wire() + a.scope_id.wire() + ra =~= a.port.wire() + (a.flowinfo.wire() + a.scope_id.wire() + ra));
        assert(b.port.wire() + b.flowinfo.wire() + b.scope_id.wire() + rb =~= b.port.wire() + (b.flowinfo.wire() + b.scope_id.wire() + rb));
        <u16>::lemma_prefix_unique(a.port, b.port, a.flowinfo.wire() + a.scope_id.wire() + ra, b.flowinfo.wire() + b.scope_id.wire() + rb);
        assert(a.flowinfo.wire() + a.scope_id.wire() + ra =~= (a.port.wire() + (a.flowinfo.wire() + a.scope_id.wire() + ra)).skip(a.port.wire().len() as int));
        assert(b.flowinfo.wire() + b.scope_id.wire() + rb =~= (b.port.wire() + (b.flowinfo.wire() + b.scope_id.wire() + rb)).skip(b.port.wire().len() as int));
        assert(a.flowinfo.wire() + a.scope_id.wire() + ra =~= a.flowinfo.wire() + (a.scope_id.wire() + ra));
        assert(b.flowinfo.wire() + b.scope_id.wire() + rb =~= b.flowinfo.wire() + (b.scope_id.wire() + rb));
        <u32>::lemma_prefix_unique(a.flowinfo, b.flowinfo, a.scope_id.wire() + ra, b.scope_id.wire() + rb);
        assert(a.scope_id.wire() + ra =~= (a.flowinfo.wire() + (a.scope_id.wire() + ra)).skip(a.flowinfo.wire().len() as int));
        assert(b.scope_id.wire() + rb =~= (b.flowinfo.wire() + (b.scope_id.wire() + rb)).skip(b.flowinfo.wire().len() as int));
        <u32>::lemma_prefix_unique(a.scope_id, b.scope_id, ra, rb);
        assert(ra =~= (a.scope_id.wire() + ra).skip(a.scope_id.wire().len() as int));
        assert(rb =~= (b.scope_id.wire() + rb).skip(b.scope_id.wire().len() as int));
    }
}

/// The discriminant byte of the IPv4 family.
pub const TAG_V4: u8 = 4;

/// The discriminant byte of the IPv6 family.
pub const TAG_V6: u8 = 6;

/// an IPv4 or an IPv6 address.
#[derive(Clone, Copy, Debug, PartialEq, Eq)]
pub enum IpAddr {
    V4(Ipv4Addr),
    V6(Ipv6Addr),
}

impl DeepView for IpAddr {
    type V = Result<<Ipv4Addr as DeepView>::V, <Ipv6Addr as DeepView>::V>;

    open spec fn deep_view(&self) -> Self::V {
        match self {
            IpAddr::V4(a) => Ok(a.deep_view()),
            IpAddr::V6(a) => Err(a.deep_view()),
        }
    }
}

/// The family's discriminant byte (`TAG_V4` or `TAG_V6`), then the address.
impl Encode for IpAddr {
    open spec fn fast_len(&self) -> nat {
        match self {
            IpAddr::V4(a) => 1 + a.fast_len(),
            IpAddr::V6(a) => 1 + a.fast_len(),
        }
    }

    open spec fn encodable(&self) -> bool {
        true
    }

    open spec fn wire(&self) -> Seq<u8> {
        match self {
            IpAddr::V4(a) => seq![TAG_V4] + a.wire(),
            IpAddr::V6(a) => seq![TAG_V6] + a.wire(),
        }
    }

    open spec fn fast_exact(&self) -> bool {
        true
    }

    fn fast_size(&self) -> (r: usize) {
        match self {
            IpAddr::V4(a) => {
                let n = a.fast_size();
                proof {
                    assert(a.encodable() && a.fast_exact());
                }
                if n < usize::MAX {
                    n + 1
                } else {
                    0
                }
            },
            IpAddr::V6(a) => {
                let n = a.fast_size();
                proof {
                    assert(a.encodable() && a.fast_exact());
                }
                if n < usize::MAX {
                    n + 1
                } else {
                    0
                }
            },
        }
    }

    fn size(&self) -> (r: Result<usize, CodecError>) {
        let n = match self {
            IpAddr::V4(a) => a.size(),
            IpAddr::V6(a) => a.size(),
        };
        match n {
            Ok(n) => {
                if n < usize::MAX {
                    Ok(n + 1)
                } else {
                    Err(CodecError::InvalidInput)
                }
            },
            Err(e) => Err(e),
        }
    }

    fn encode_into(&self, out: &mut Vec<u8>) -> (r: Result<(), CodecError>) {
        let start_len = out.len();
        match self {
            IpAddr::V4(a) => {
                out.push(TAG_V4);
                match a.encode_into(out) {
                    Ok(()) => {},
                    Err(e) => {
                        out.truncate(start_len);
                        return Err(e);
                    },
                }
            },
            IpAddr::V6(a) => {
                out.push(TAG_V6);
                match a.encode_into(out) {
                    Ok(()) => {},
                    Err(e) => {
                        out.truncate(start_len);
                        return Err(e);
                    },
                }
            },
        }
        assert(out@ =~= old(out)@ + self.wire());
        Ok(())
    }
}

impl Decode for IpAddr {
    open spec fn decode_error(input: Seq<u8>) -> CodecError {
        if input.len() == 0 {
            CodecError::UnexpectedEof
        } else if input[0] == TAG_V4 {
            Ipv4Addr::decode_error(input.skip(1))
        } else if input[0] == TAG_V6 {
            Ipv6Addr::decode_error(input.skip(1))
        } else {
            CodecError::InvalidData
        }
    }

    /// A first byte other than `TAG_V4` or `TAG_V6` is `InvalidData`.
    fn decode_with_len_from(reader: &mut ByteReader) -> (r: Result<(Self, usize), CodecError>)
        ensures
            old(reader)@.len() >= 1 && old(reader)@[0] != TAG_V4 && old(reader)@[0] != TAG_V6
                ==> r == Err::<(IpAddr, usize), CodecError>(CodecError::InvalidData),
    {
        let ghost start = reader@;
        proof {
            reader.lemma_len_fits();
        }
        let tag = match reader.read_u8() {
            Ok(t) => t,
            Err(e) => {
                proof {
                    assert forall|v: IpAddr, rest: Seq<u8>| #[trigger] v.encodable() && start
                        == #[trigger] (v.wire() + rest) implies false by {
                        assert((v.wire() + rest).len() >= 1);
                    }
                }
                return Err(e);
            },
        };
        let ghost mid = reader@;
        if tag == TAG_V4 {
            match Ipv4Addr::decode_with_len_from(reader) {
                Ok((a, n)) => {
                    let v = IpAddr::V4(a);
                    assert(start =~= seq![tag] + mid);
                    assert(start =~= v.wire() + reader@);
                    Ok((v, n + 1))
                },
                Err(e) => {
                    proof {
                        assert forall|v: IpAddr, rest: Seq<u8>| #[trigger] v.encodable() && start
                            == #[trigger] (v.wire() + rest) implies false by {
                            assert(start[0] == (v.wire() + rest)[0]);
                            if let IpAddr::V4(b) = v {
                                assert(mid =~= b.wire() + rest);
                                assert(b.encodable());
                            }
                        }
                    }
                    Err(e)
                },
            }
        } else if tag == TAG_V6 {
            match Ipv6Addr::decode_with_len_from(reader) {
                Ok((a, n)) => {
                    let v = IpAddr::V6(a);
                    assert(start =~= seq![tag] + mid);
                    assert(start =~= v.wire() + reader@);
                    Ok((v, n + 1))
                },
                Err(e) => {
                    proof {
                        assert forall|v: IpAddr, rest: Seq<u8>| #[trigger] v.encodable() && start
                            == #[trigger] (v.wire() + rest) implies false by {
                            assert(start[0] == (v.wire() + rest)[0]);
                            if let IpAddr::V6(b) = v {
                                assert(mid =~= b.wire() + rest);
                                assert(b.encodable());
                            }
                        }
                    }
                    Err(e)
                },
            }
        } else {
            proof {
                assert forall|v: IpAddr, rest: Seq<u8>| #[trigger] v.encodable() && start
                    == #[trigger] (v.wire() + rest) implies false by {
                    assert(start[0] == (v.wire() + rest)[0]);
                }
            }
            Err(CodecError::InvalidData)
        }
    }

    fn never_empty() -> (r: bool) {
        proof {
            assert forall|v: Self| #[trigger] v.encodable() implies v.wire().len() >= 1 by {
            }
        }
        true
    }

    proof fn lemma_truncated(v: Self, k: nat) {
        if k > 0 {
            match v {
                IpAddr::V4(a) => {
                    assert(v.wire().take(k as int).skip(1) =~= a.wire().take(k - 1));
                    Ipv4Addr::lemma_truncated(a, (k - 1) as nat);
                },
                IpAddr::V6(a) => {
                    assert(v.wire().take(k as int).skip(1) =~= a.wire().take(k - 1));
                    Ipv6Addr::lemma_truncated(a, (k - 1) as nat);
                },
            }
        }
    }

    proof fn lemma_prefix_unique(a: Self, b: Self, ra: Seq<u8>, rb: Seq<u8>) {
        assert((a.wire() + ra)[0] == (b.wire() + rb)[0]);
        assert((a.wire() + ra)[0] == a.wire()[0]);
        assert((b.wire() + rb)[0] == b.wire()[0]);
        match (a, b) {
            (IpAddr::V4(x), IpAddr::V4(y)) => {
                assert((a.wire() + ra).skip(1) =~= x.wire() + ra);
                assert((b.wire() + rb).skip(1) =~= y.wire() + rb);
                Ipv4Addr::lemma_prefix_unique(x, y, ra, rb);
            },
            (IpAddr::V6(x), IpAddr::V6(y)) => {
                assert((a.wire() + ra).skip(1) =~= x.wire() + ra);
                assert((b.wire() + rb).skip(1) =~= y.wire() + rb);
                Ipv6Addr::lemma_prefix_unique(x, y, ra, rb);
            },
            _ => {},
        }
    }
}

/// an IPv4 or an IPv6 socket address.
#[derive(Clone, Copy, Debug, PartialEq, Eq)]
pub enum SocketAddr {
    V4(SocketAddrV4),
    V6(SocketAddrV6),
}

impl DeepView for SocketAddr {
    type V = Result<<SocketAddrV4 as DeepView>::V, <SocketAddrV6 as DeepView>::V>;

    open spec fn deep_view(&self) -> Self::V {
        match self {
            SocketAddr::V4(a) => Ok(a.deep_view()),
            SocketAddr::V6(a) => Err(a.deep_view()),
        }
    }
}

/// The family's discriminant byte (`TAG_V4` or `TAG_V6`), then the address.
impl Encode for SocketAddr {
    open spec fn fast_len(&self) -> nat {
        match self {
            SocketAddr::V4(a) => 1 + a.fast_len(),
            SocketAddr::V6(a) => 1 + a.fast_len(),
        }
    }

    open spec fn encodable(&self) -> bool {
        true
    }

    open spec fn wire(&self) -> Seq<u8> {
        match self {
            SocketAddr::V4(a) => seq![TAG_V4] + a.wire(),
            SocketAddr::V6(a) => seq![TAG_V6] + a.wire(),
        }
    }

    open spec fn fast_exact(&self) -> bool {
        true
    }

    fn fast_size(&self) -> (r: usize) {
        match self {
            SocketAddr::V4(a) => {
                let n = a.fast_size();
                proof {
                    assert(a.encodable() && a.fast_exact());
                }
                if n < usize::MAX {
                    n + 1
                } else {
                    0
                }
            },
            SocketAddr::V6(a) => {
                let n = a.fast_size();
                proof {
                    assert(a.encodable() && a.fast_exact());
                }
                if n < usize::MAX {
                    n + 1
                } else {
                    0
                }
            },
        }
    }

    fn size(&self) -> (r: Result<usize, CodecError>) {
        let n = match self {
            SocketAddr::V4(a) => a.size(),
            SocketAddr::V6(a) => a.size(),
        };
        match n {
            Ok(n) => {
                if n < usize::MAX {
                    Ok(n + 1)
                } else {
                    Err(CodecError::InvalidInput)
                }
            },
            Err(e) => Err(e),
        }
    }

    fn encode_into(&self, out: &mut Vec<u8>) -> (r: Result<(), CodecError>) {
        let start_len = out.len();
        match self {
            SocketAddr::V4(a) => {
                out.push(TAG_V4);
                match a.encode_into(out) {
                    Ok(()) => {},
                    Err(e) => {
                        out.truncate(start_len);
                        return Err(e);
                    },
                }
            },
            SocketAddr::V6(a) => {
                out.push(TAG_V6);
                match a.encode_into(out) {
                    Ok(()) => {},
                    Err(e) => {
                        out.truncate(start_len);
                        return Err(e);
                    },
                }
            },
        }
        assert(out@ =~= old(out)@ + self.wire());
        Ok(())
    }
}

impl Decode for SocketAddr {
    open spec fn decode_error(input: Seq<u8>) -> CodecError {
        if input.len() == 0 {
            CodecError::UnexpectedEof
        } else if input[0] == TAG_V4 {
            SocketAddrV4::decode_error(input.skip(1))
        } else if input[0] == TAG_V6 {
            SocketAddrV6::decode_error(input.skip(1))
        } else {
            CodecError::InvalidData
        }
    }

    /// A first byte other than `TAG_V4` or `TAG_V6` is `InvalidData`.
    fn decode_with_len_from(reader: &mut ByteReader) -> (r: Result<(Self, usize), CodecError>)
        ensures
            old(reader)@.len() >= 1 && old(reader)@[0] != TAG_V4 && old(reader)@[0] != TAG_V6
                ==> r == Err::<(SocketAddr, usize), CodecError>(CodecError::InvalidData),
    {
        let ghost start = reader@;
        proof {
            reader.lemma_len_fits();
        }
        let tag = match reader.read_u8() {
            Ok(t) => t,
            Err(e) => {
                proof {
                    assert forall|v: SocketAddr, rest: Seq<u8>| #[trigger] v.encodable() && start
                        == #[trigger] (v.wire() + rest) implies false by {
                        assert((v.wire() + rest).len() >= 1);
                    }
                }
                return Err(e);
            },
        };
        let ghost mid = reader@;
        if tag == TAG_V4 {
            match SocketAddrV4::decode_with_len_from(reader) {
                Ok((a, n)) => {
                    let v = SocketAddr::V4(a);
                    assert(start =~= seq![tag] + mid);
                    assert(start =~= v.wire() + reader@);
                    Ok((v, n + 1))
                },
                Err(e) => {
                    proof {
                        assert forall|v: SocketAddr, rest: Seq<u8>| #[trigger] v.encodable() && start
                            == #[trigger] (v.wire() + rest) implies false by {
                            assert(start[0] == (v.wire() + rest)[0]);
                            if let SocketAddr::V4(b) = v {
                                assert(mid =~= b.wire() + rest);
                                assert(b.encodable());
                            }
                        }
                    }
                    Err(e)
                },
            }
        } else if tag == TAG_V6 {
            match SocketAddrV6::decode_with_len_from(reader) {
                Ok((a, n)) => {
                    let v = SocketAddr::V6(a);
                    assert(start =~= seq![tag] + mid);
                    assert(start =~= v.wire() + reader@);
                    Ok((v, n + 1))
                },
                Err(e) => {
                    proof {
                        assert forall|v: SocketAddr, rest: Seq<u8>| #[trigger] v.encodable() && start
                            == #[trigger] (v.wire() + rest) implies false by {
                            assert(start[0] == (v.wire() + rest)[0]);
                            if let SocketAddr::V6(b) = v {
                                assert(mid =~= b.wire() + rest);
                                assert(b.encodable());
                            }
                        }
                    }
                    Err(e)
                },
            }
        } else {
            proof {
                assert forall|v: SocketAddr, rest: Seq<u8>| #[trigger] v.encodable() && start
                    == #[trigger] (v.wire() + rest) implies false by {
                    assert(start[0] == (v.wire() + rest)[0]);
                }
            }
            Err(CodecError::InvalidData)
        }
    }

    fn never_empty() -> (r: bool) {
        proof {
            assert forall|v: Self| #[trigger] v.encodable() implies v.wire().len() >= 1 by {
            }
        }
        true
    }

    proof fn lemma_truncated(v: Self, k: nat) {
        if k > 0 {
            match v {
                SocketAddr::V4(a) => {
                    assert(v.wire().take(k as int).skip(1) =~= a.wire().take(k - 1));
                    SocketAddrV4::lemma_truncated(a, (k - 1) as nat);
                },
                SocketAddr::V6(a) => {
                    assert(v.wire().take(k as int).skip(1) =~= a.wire().take(k - 1));
                    SocketAddrV6::lemma_truncated(a, (k - 1) as nat);
                },
            }
        }
    }

    proof fn lemma_prefix_unique(a: Self, b: Self, ra: Seq<u8>, rb: Seq<u8>) {
        assert((a.wire() + ra)[0] == (b.wire() + rb)[0]);
        assert((a.wire() + ra)[0] == a.wire()[0]);
        assert((b.wire() + rb)[0] == b.wire()[0]);
        match (a, b) {
            (SocketAddr::V4(x), SocketAddr::V4(y)) => {
                assert((a.wire() + ra).skip(1) =~= x.wire() + ra);
                assert((b.wire() + rb).skip(1) =~= y.wire() + rb);
                SocketAddrV4::lemma_prefix_unique(x, y, ra, rb);
            },
            (SocketAddr::V6(x), SocketAddr::V6(y)) => {
                assert((a.wire() + ra).skip(1) =~= x.wire() + ra);
                assert((b.wire() + rb).skip(1) =~= y.wire() + rb);
                SocketAddrV6::lemma_prefix_unique(x, y, ra, rb);
            },
            _ => {},
        }
    }
}

} // verus!
