//! Little-endian byte strings of a fixed width.
use vstd::prelude::*;

verus! {

/// `256` to the power `n`.
pub open spec fn pow256(n: nat) -> nat
    decreases n,
{
    if n == 0 {
        1
    } else {
        256 * pow256((n - 1) as nat)
    }
}

/// The `n` low-order bytes of `x`, least significant first.
pub open spec fn le_bytes(x: nat, n: nat) -> Seq<u8>
    decreases n,
{
    if n == 0 {
        Seq::empty()
    } else {
        seq![(x % 256) as u8] + le_bytes(x / 256, (n - 1) as nat)
    }
}

/// The number whose little-endian bytes are `s`.
pub open spec fn le_value(s: Seq<u8>) -> nat
    decreases s.len(),
{
    if s.len() == 0 {
        0
    } else {
        s[0] as nat + 256 * le_value(s.skip(1))
    }
}

pub proof fn lemma_le_bytes_len(x: nat, n: nat)
    ensures
        #[trigger] le_bytes(x, n).len() == n,
    decreases n,
{
    if n > 0 {
        lemma_le_bytes_len(x / 256, (n - 1) as nat);
    }
}

pub proof fn lemma_pow256_pos(n: nat)
    ensures
        #[trigger] pow256(n) >= 1,
    decreases n,
{
    if n > 0 {
        lemma_pow256_pos((n - 1) as nat);
    }
}

/// Decoding the bytes of a number that fits in `n` bytes gives the number back.
pub proof fn lemma_le_value_of_bytes(x: nat, n: nat)
    requires
        x < pow256(n),
    ensures
        #[trigger] le_value(le_bytes(x, n)) == x,
    decreases n,
{
    if n > 0 {
        let s = le_bytes(x, n);
        lemma_le_bytes_len(x, n);
        assert(s.skip(1) =~= le_bytes(x / 256, (n - 1) as nat));
        assert(x / 256 < pow256((n - 1) as nat)) by (nonlinear_arith)
            requires
                x < 256 * pow256((n - 1) as nat),
        ;
        lemma_le_value_of_bytes(x / 256, (n - 1) as nat);
        assert(x == x % 256 + 256 * (x / 256)) by (nonlinear_arith);
    }
}

/// A byte string is the little-endian encoding of its value, which fits its width.
pub proof fn lemma_le_bytes_of_value(s: Seq<u8>)
    ensures
        le_value(s) < pow256(s.len()),
        le_bytes(le_value(s), s.len()) == s,
    decreases s.len(),
{
    if s.len() > 0 {
        let t = s.skip(1);
        lemma_le_bytes_of_value(t);
        let v = le_value(s);
        let w = le_value(t);
        assert(v == s[0] as nat + 256 * w);
        assert(v % 256 == s[0] as nat && v / 256 == w) by (nonlinear_arith)
            requires
                v == s[0] as nat + 256 * w,
                s[0] < 256,
        ;
        assert(v < pow256(s.len())) by (nonlinear_arith)
            requires
                v == s[0] as nat + 256 * w,
                s[0] < 256,
                w < pow256(t.len()),
                pow256(s.len()) == 256 * pow256(t.len()),
        ;
        assert(le_bytes(v, s.len()) =~= s);
    }
}

/// Equal encodings of the same width come from equal numbers below the width's bound.
pub proof fn lemma_le_bytes_injective(x: nat, y: nat, n: nat)
    requires
        x < pow256(n),
        y < pow256(n),
        le_bytes(x, n) == le_bytes(y, n),
    ensures
        x == y,
{
    lemma_le_value_of_bytes(x, n);
    lemma_le_value_of_bytes(y, n);
}

/// Appends the `width` low-order bytes of `v` to `out`, least significant first.
pub fn write_le(out: &mut Vec<u8>, v: u128, width: usize)
    ensures
        final(out)@ == old(out)@ + le_bytes(v as nat, width as nat),
{
    let mut x: u128 = v;
    let mut i: usize = 0;
    while i < width
        invariant
            i <= width,
            out@ + le_bytes(x as nat, (width - i) as nat) == old(out)@ + le_bytes(
                v as nat,
                width as nat,
            ),
        decreases width - i,
    {
        let ghost before = out@;
        out.push((x % 256) as u8);
        assert(le_bytes(x as nat, (width - i) as nat) == seq![(x % 256) as u8] + le_bytes(
            (x / 256) as nat,
            (width - i - 1) as nat,
        ));
        assert(out@ + le_bytes((x / 256) as nat, (width - i - 1) as nat) =~= before + le_bytes(
            x as nat,
            (width - i) as nat,
        ));
        x = x / 256;
        i = i + 1;
    }
    assert(out@ =~= out@ + le_bytes(x as nat, 0));
}

} // verus!
