//! A cursor over a byte slice that decoders consume from the front.
use vstd::prelude::*;
use crate::le::{le_bytes, le_value, lemma_le_bytes_of_value, pow256};
use crate::CodecError;

verus! {

/// The unread part of a byte slice.
pub struct ByteReader<'a> {
    data: &'a [u8],
    pos: usize,
}

impl<'a> View for ByteReader<'a> {
    type V = Seq<u8>;

    /// The bytes not read yet.
    closed spec fn view(&self) -> Seq<u8> {
        if self.pos <= self.data@.len() {
            self.data@.subrange(self.pos as int, self.data@.len() as int)
        } else {
            Seq::empty()
        }
    }
}

impl<'a> ByteReader<'a> {
    #[verifier::type_invariant]
    spec fn inv(&self) -> bool {
        self.pos <= self.data@.len() <= usize::MAX
    }

    /// The unread bytes are part of a slice, so their count fits in a `usize`.
    pub proof fn lemma_len_fits(&self)
        ensures
            self@.len() <= usize::MAX,
    {
        broadcast use vstd::slice::axiom_spec_len;

        assert(self.data@.len() == self.data.len());
    }

    /// A reader positioned at the start of `data`.
    pub fn new(data: &'a [u8]) -> (r: Self)
        ensures
            r@ == data@,
    {
        assert(data@.len() == data.len()) by {
            broadcast use vstd::slice::axiom_spec_len;
        }
        let r = ByteReader { data, pos: 0 };
        assert(r@ =~= data@);
        r
    }

    /// How many bytes are left.
    pub fn remaining(&self) -> (r: usize)
        ensures
            r == self@.len(),
    {
        proof {
            use_type_invariant(self);
        }
        self.data.len() - self.pos
    }

    /// Takes the next `n` bytes, or fails with `UnexpectedEof` (reading nothing)
    /// when fewer remain.
    pub fn read_bytes(&mut self, n: usize) -> (r: Result<&'a [u8], CodecError>)
        ensures
            match r {
                Ok(s) => n <= old(self)@.len() && s@ == old(self)@.take(n as int)
                    && final(self)@ == old(self)@.skip(n as int),
                Err(e) => e == CodecError::UnexpectedEof && old(self)@.len() < n
                    && final(self)@ == old(self)@,
            },
    {
        proof {
            use_type_invariant(&*self);
        }
        if n > self.data.len() - self.pos {
            return Err(CodecError::UnexpectedEof);
        }
        let s = vstd::slice::slice_subrange(self.data, self.pos, self.pos + n);
        self.pos = self.pos + n;
        assert(s@ =~= old(self)@.take(n as int));
        assert(self@ =~= old(self)@.skip(n as int));
        Ok(s)
    }

    /// Takes the next byte, or fails with `UnexpectedEof` on an empty input.
    pub fn read_u8(&mut self) -> (r: Result<u8, CodecError>)
        ensures
            match r {
                Ok(b) => old(self)@.len() >= 1 && b == old(self)@[0] && final(self)@
                    == old(self)@.skip(1),
                Err(e) => e == CodecError::UnexpectedEof && old(self)@.len() == 0
                    && final(self)@ == old(self)@,
            },
    {
        match self.read_bytes(1) {
            Ok(s) => Ok(s[0]),
            Err(e) => Err(e),
        }
    }

    /// Takes the next `width` bytes as a little-endian number.
    pub fn read_le(&mut self, width: usize) -> (r: Result<u128, CodecError>)
        requires
            width <= 16,
        ensures
            match r {
                Ok(v) => width <= old(self)@.len() && v == le_value(old(self)@.take(width as int))
                    && v < pow256(width as nat) && le_bytes(v as nat, width as nat) == old(
                    self,
                )@.take(width as int) && final(self)@ == old(self)@.skip(width as int),
                Err(e) => e == CodecError::UnexpectedEof && old(self)@.len() < width
                    && final(self)@ == old(self)@,
            },
    {
        let s = match self.read_bytes(width) {
            Ok(s) => s,
            Err(e) => return Err(e),
        };
        let ghost bytes = s@;
        proof {
            lemma_le_bytes_of_value(bytes);
            lemma_pow256_16();
        }
        let mut acc: u128 = 0;
        let mut j: usize = width;
        while j > 0
            invariant
                j <= width <= 16,
                s@ == bytes,
                bytes.len() == width,
                acc as nat == le_value(bytes.skip(j as int)),
                le_value(bytes.skip(j as int)) < pow256((width - j) as nat),
            decreases j,
        {
            let ghost t = bytes.skip(j as int);
            let ghost u = bytes.skip(j - 1);
            proof {
                lemma_le_bytes_of_value(u);
                assert(u.skip(1) =~= t);
                lemma_pow256_mono((width - j + 1) as nat, 16);
                lemma_pow256_mono((width - j) as nat, 15);
                lemma_pow256_16();
                assert(acc * 256 + 255 <= u128::MAX) by (nonlinear_arith)
                    requires
                        acc < pow256(15),
                        pow256(16) == 256 * pow256(15),
                        pow256(16) == 0x1_0000_0000_0000_0000_0000_0000_0000_0000,
                ;
            }
            acc = acc * 256 + s[j - 1] as u128;
            j = j - 1;
        }
        assert(bytes.skip(0) =~= bytes);
        Ok(acc)
    }
}

proof fn lemma_pow256_16()
    ensures
        pow256(16) == 0x1_0000_0000_0000_0000_0000_0000_0000_0000,
{
    reveal_with_fuel(pow256, 17);
}

proof fn lemma_pow256_mono(a: nat, b: nat)
    requires
        a <= b,
    ensures
        pow256(a) <= pow256(b),
    decreases b,
{
    if a < b {
        lemma_pow256_mono(a, (b - 1) as nat);
    }
}

} // verus!
