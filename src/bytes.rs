//! Byte order: the reversal used to read memory, and the value of a byte
//! string.
use vstd::prelude::*;

verus! {

/// The value of `s` read most significant byte first.
pub open spec fn be_value(s: Seq<u8>) -> nat
    decreases s.len(),
{
    if s.len() == 0 {
        0
    } else {
        be_value(s.subrange(0, s.len() - 1)) * 256 + s[s.len() - 1] as nat
    }
}

/// The value of `s` read least significant byte first.
pub open spec fn le_value(s: Seq<u8>) -> nat
    decreases s.len(),
{
    if s.len() == 0 {
        0
    } else {
        s[0] as nat + 256 * le_value(s.subrange(1, s.len() as int))
    }
}

/// `256` to the power `n`.
pub open spec fn pow256(n: nat) -> nat
    decreases n,
{
    if n == 0 {
        1
    } else {
        256 * pow256((n - 1) as nat)
    }
}

/// Reading the reversed bytes most significant first is reading the bytes
/// least significant first.
pub proof fn lemma_be_reverse(s: Seq<u8>)
    ensures
        be_value(s.reverse()) == le_value(s),
    decreases s.len(),
{
    if s.len() > 0 {
        let t = s.subrange(1, s.len() as int);
        lemma_be_reverse(t);
        let r = s.reverse();
        assert(r.subrange(0, r.len() - 1) =~= t.reverse());
        assert(r[r.len() - 1] == s[0]);
    }
}

proof fn lemma_be_bound(s: Seq<u8>)
    ensures
        be_value(s) < pow256(s.len()),
    decreases s.len(),
{
    if s.len() > 0 {
        let t = s.subrange(0, s.len() - 1);
        lemma_be_bound(t);
        let v = be_value(t);
        let p = pow256(t.len());
        let b = s[s.len() - 1] as nat;
        assert(v * 256 + b < 256 * p) by (nonlinear_arith)
            requires
                v < p,
                b < 256,
        ;
    }
}

proof fn lemma_pow256_8()
    ensures
        pow256(8) == 0x1_0000_0000_0000_0000,
{
    reveal_with_fuel(pow256, 9);
}

/// Reverses `bytes` in place by halving and rotating.
pub fn reverse_endianness(bytes: &mut Vec<u8>)
    ensures
        final(bytes)@ == old(bytes)@.reverse(),
    decreases old(bytes)@.len(),
{
    let n = bytes.len();
    if n <= 2 {
        if n == 2 {
            let a = bytes[0];
            let b = bytes[1];
            bytes.set(0, b);
            bytes.set(1, a);
        }
        assert(bytes@ =~= old(bytes)@.reverse());
    } else {
        let half = n / 2;
        let mut upper: Vec<u8> = Vec::new();
        let mut lower: Vec<u8> = Vec::new();
        let mut i: usize = 0;
        while i < n
            invariant
                n == bytes@.len(),
                bytes@ == old(bytes)@,
                half == n / 2,
                i <= n,
                i <= half ==> upper@ == bytes@.subrange(0, i as int) && lower@.len() == 0,
                i > half ==> upper@ == bytes@.subrange(0, half as int) && lower@ == bytes@.subrange(
                    half as int,
                    i as int,
                ),
            decreases n - i,
        {
            if i < half {
                upper.push(bytes[i]);
            } else {
                lower.push(bytes[i]);
            }
            i += 1;
        }
        let ghost up0 = upper@;
        let ghost lo0 = lower@;
        reverse_endianness(&mut upper);
        reverse_endianness(&mut lower);
        let mut out: Vec<u8> = Vec::new();
        let mut j: usize = 0;
        while j < lower.len()
            invariant
                j <= lower@.len(),
                out@ == lower@.subrange(0, j as int),
            decreases lower@.len() - j,
        {
            out.push(lower[j]);
            j += 1;
        }
        let mut k: usize = 0;
        while k < upper.len()
            invariant
                k <= upper@.len(),
                out@ == lower@ + upper@.subrange(0, k as int),
            decreases upper@.len() - k,
        {
            out.push(upper[k]);
            k += 1;
        }
        assert(upper@.subrange(0, upper@.len() as int) =~= upper@);
        assert(lower@.subrange(0, lower@.len() as int) =~= lower@);
        assert(old(bytes)@ =~= up0 + lo0);
        assert(out@ =~= old(bytes)@.reverse());
        *bytes = out;
    }
}

/// The bitvector whose bytes, most significant first, are `bytes`.
pub fn value_of_bytes(bytes: &Vec<u8>) -> (v: u64)
    requires
        bytes@.len() <= 8,
    ensures
        v == be_value(bytes@),
{
    let mut v: u64 = 0;
    let mut i: usize = 0;
    while i < bytes.len()
        invariant
            i <= bytes@.len() <= 8,
            v == be_value(bytes@.subrange(0, i as int)),
        decreases bytes@.len() - i,
    {
        proof {
            let s = bytes@.subrange(0, i + 1);
            assert(s.subrange(0, s.len() - 1) =~= bytes@.subrange(0, i as int));
            lemma_be_bound(s);
            lemma_pow256_mono(s.len(), 8);
            lemma_pow256_8();
        }
        v = v * 256 + bytes[i] as u64;
        i += 1;
    }
    assert(bytes@.subrange(0, bytes@.len() as int) =~= bytes@);
    v
}

proof fn lemma_pow256_mono(a: nat, b: nat)
    requires
        a <= b,
    ensures
        pow256(a) <= pow256(b),
    decreases b,
{
    if a < b {
        lemma_pow256_mono(a, (b - 1) as nat);
    }
}

} // verus!
