//! Big-endian integers in byte sequences, and byte-range copies.

use vstd::prelude::*;

verus! {

/// `256` raised to the power `k`.
pub open spec fn pow256(k: nat) -> nat
    decreases k,
{
    if k == 0 {
        1
    } else {
        256 * pow256((k - 1) as nat)
    }
}

/// The number that the bytes `s` denote, most significant byte first.
pub open spec fn be_value(s: Seq<u8>) -> nat
    decreases s.len(),
{
    if s.len() == 0 {
        0
    } else {
        be_value(s.drop_last()) * 256 + s.last() as nat
    }
}

/// The lowest `k` bytes of `n`, most significant byte first.
pub open spec fn be_bytes(n: nat, k: nat) -> Seq<u8>
    decreases k,
{
    if k == 0 {
        Seq::empty()
    } else {
        be_bytes(n / 256, (k - 1) as nat).push((n % 256) as u8)
    }
}

pub proof fn lemma_pow256_facts()
    ensures
        pow256(2) == 0x10000,
        pow256(8) == 0x1_0000_0000_0000_0000,
{
    reveal_with_fuel(pow256, 9);
}

/// `k` bytes never denote a number of `pow256(k)` or more.
pub proof fn lemma_be_value_bound(s: Seq<u8>)
    ensures
        be_value(s) < pow256(s.len()),
    decreases s.len(),
{
    if s.len() > 0 {
        lemma_be_value_bound(s.drop_last());
    }
}

/// `be_bytes` writes `k` bytes.
pub proof fn lemma_be_bytes_len(n: nat, k: nat)
    ensures
        be_bytes(n, k).len() == k,
    decreases k,
{
    if k > 0 {
        lemma_be_bytes_len(n / 256, (k - 1) as nat);
    }
}

/// Reading back what `be_bytes` wrote gives the number modulo `pow256(k)`.
pub proof fn lemma_be_roundtrip(n: nat, k: nat)
    ensures
        be_value(be_bytes(n, k)) == n % pow256(k),
    decreases k,
{
    if k > 0 {
        lemma_be_roundtrip(n / 256, (k - 1) as nat);
        let p = pow256((k - 1) as nat);
        assert(p > 0) by {
            lemma_pow256_positive((k - 1) as nat);
        }
        vstd::arithmetic::div_mod::lemma_mod_breakdown(n as int, 256, p as int);
        assert(be_bytes(n, k).drop_last() == be_bytes(n / 256, (k - 1) as nat));
    }
}

pub proof fn lemma_pow256_positive(k: nat)
    ensures
        pow256(k) > 0,
    decreases k,
{
    if k > 0 {
        lemma_pow256_positive((k - 1) as nat);
    }
}

/// The `k` bytes of `buf` from `start`, read as a big-endian number.
pub fn be_decode(buf: &[u8], start: usize, k: usize) -> (v: u64)
    requires
        k <= 8,
        start + k <= buf@.len(),
    ensures
        v as nat == be_value(buf@.subrange(start as int, start + k)),
    decreases k,
{
    if k == 0 {
        0
    } else {
        let hi = be_decode(buf, start, k - 1);
        let len = buf.len();
        proof {
            let s = buf@.subrange(start as int, start + k);
            assert(s.drop_last() =~= buf@.subrange(start as int, start + k - 1));
            lemma_be_value_bound(s.drop_last());
            lemma_pow256_facts();
            lemma_pow256_monotone((k - 1) as nat, 7);
        }
        hi * 256 + buf[start + k - 1] as u64
    }
}

pub proof fn lemma_pow256_monotone(a: nat, b: nat)
    requires
        a <= b,
    ensures
        pow256(a) <= pow256(b),
    decreases b,
{
    if a < b {
        lemma_pow256_monotone(a, (b - 1) as nat);
    }
}

/// The lowest `k` bytes of `n`, most significant first.
pub fn be_encode(n: u64, k: usize) -> (out: Vec<u8>)
    ensures
        out@ == be_bytes(n as nat, k as nat),
    decreases k,
{
    if k == 0 {
        Vec::new()
    } else {
        let mut out = be_encode(n / 256, k - 1);
        out.push((n % 256) as u8);
        out
    }
}

/// A copy of `buf[start..end]`.
pub fn copy_range(buf: &[u8], start: usize, end: usize) -> (out: Vec<u8>)
    requires
        start <= end <= buf@.len(),
    ensures
        out@ == buf@.subrange(start as int, end as int),
{
    let mut out: Vec<u8> = Vec::new();
    let mut i = start;
    while i < end
        invariant
            start <= i <= end <= buf@.len(),
            out@ == buf@.subrange(start as int, i as int),
        decreases end - i,
    {
        out.push(buf[i]);
        i = i + 1;
    }
    out
}

/// Appends all of `src` to `dst`.
pub fn append_bytes(dst: &mut Vec<u8>, src: &[u8])
    ensures
        final(dst)@ == old(dst)@ + src@,
{
    let ghost before = dst@;
    let mut i: usize = 0;
    while i < src.len()
        invariant
            i <= src@.len(),
            dst@ == before + src@.subrange(0, i as int),
        decreases src@.len() - i,
    {
        dst.push(src[i]);
        i = i + 1;
    }
    assert(src@.subrange(0, src@.len() as int) =~= src@);
}

} // verus!
