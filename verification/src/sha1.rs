//! SHA-1 (RFC 3174, FIPS 180-4), used to derive the WebSocket accept key.

use vstd::prelude::*;

use crate::bytes::{
    append_bytes, be_bytes, be_decode, be_encode, be_value, lemma_be_bytes_len,
    lemma_be_value_bound,
};

verus! {

/// The five chaining words `H0`..`H4`.
pub type Words5 = (u32, u32, u32, u32, u32);

/// The initial chaining value.
pub open spec fn initial_words() -> Words5 {
    (0x67452301u32, 0xEFCDAB89u32, 0x98BADCFEu32, 0x10325476u32, 0xC3D2E1F0u32)
}

/// Addition modulo 2^32.
pub open spec fn wadd(a: u32, b: u32) -> u32 {
    ((a as int + b as int) % 0x1_0000_0000) as u32
}

pub open spec fn rotl1(x: u32) -> u32 {
    (x << 1u32) | (x >> 31u32)
}

pub open spec fn rotl5(x: u32) -> u32 {
    (x << 5u32) | (x >> 27u32)
}

pub open spec fn rotl30(x: u32) -> u32 {
    (x << 30u32) | (x >> 2u32)
}

/// The logical function of round `t`.
pub open spec fn round_fn(t: int, b: u32, c: u32, d: u32) -> u32 {
    if t < 20 {
        (b & c) | (!b & d)
    } else if t < 40 {
        b ^ c ^ d
    } else if t < 60 {
        (b & c) | (b & d) | (c & d)
    } else {
        b ^ c ^ d
    }
}

/// The constant of round `t`.
pub open spec fn round_const(t: int) -> u32 {
    if t < 20 {
        0x5A827999u32
    } else if t < 40 {
        0x6ED9EBA1u32
    } else if t < 60 {
        0x8F1BBCDCu32
    } else {
        0xCA62C1D6u32
    }
}

/// The big-endian word `t` of a 64-byte block.
pub open spec fn block_word(block: Seq<u8>, t: int) -> u32 {
    be_value(block.subrange(4 * t, 4 * t + 4)) as u32
}

/// The message schedule `W_t` of a block.
pub open spec fn schedule(block: Seq<u8>, t: nat) -> u32
    decreases t,
{
    if t < 16 {
        block_word(block, t as int)
    } else {
        rotl1(
            schedule(block, (t - 3) as nat) ^ schedule(block, (t - 8) as nat) ^ schedule(
                block,
                (t - 14) as nat,
            ) ^ schedule(block, (t - 16) as nat),
        )
    }
}

/// One round: `TEMP = S^5(A) + f_t(B, C, D) + E + W_t + K_t`, then
/// `E = D, D = C, C = S^30(B), B = A, A = TEMP`.
pub open spec fn round(s: Words5, t: int, w: u32) -> Words5 {
    let temp = wadd(wadd(wadd(wadd(rotl5(s.0), round_fn(t, s.1, s.2, s.3)), s.4), w), round_const(t));
    (temp, s.0, rotl30(s.1), s.2, s.3)
}

/// The working variables after the first `t` rounds over `block`.
pub open spec fn rounds(block: Seq<u8>, h: Words5, t: nat) -> Words5
    decreases t,
{
    if t == 0 {
        h
    } else {
        round(rounds(block, h, (t - 1) as nat), t - 1, schedule(block, (t - 1) as nat))
    }
}

/// The chaining value after one 64-byte block.
pub open spec fn compress(h: Words5, block: Seq<u8>) -> Words5 {
    let s = rounds(block, h, 80);
    (wadd(h.0, s.0), wadd(h.1, s.1), wadd(h.2, s.2), wadd(h.3, s.3), wadd(h.4, s.4))
}

/// The number of zero bytes of padding after the `0x80` byte.
pub open spec fn zero_pad_len(len: nat) -> nat {
    ((119 - (len % 64) as int) % 64) as nat
}

/// The message length in bits, modulo 2^64.
pub open spec fn bit_len(len: nat) -> nat {
    (len * 8) % 0x1_0000_0000_0000_0000
}

/// The padded message: the message, `0x80`, zeros up to 56 modulo 64, and
/// the bit length as a 64-bit big-endian number.
pub open spec fn pad(msg: Seq<u8>) -> Seq<u8> {
    msg + seq![0x80u8] + Seq::new(zero_pad_len(msg.len()), |i: int| 0u8) + be_bytes(
        bit_len(msg.len()),
        8,
    )
}

/// The chaining value after the first `n` blocks of `padded`.
pub open spec fn hash_blocks(padded: Seq<u8>, n: nat) -> Words5
    decreases n,
{
    if n == 0 {
        initial_words()
    } else {
        compress(
            hash_blocks(padded, (n - 1) as nat),
            padded.subrange(64 * (n - 1), (64 * n) as int),
        )
    }
}

/// The 20 digest bytes: the five words, big-endian.
pub open spec fn digest_bytes(h: Words5) -> Seq<u8> {
    be_bytes(h.0 as nat, 4) + be_bytes(h.1 as nat, 4) + be_bytes(h.2 as nat, 4) + be_bytes(
        h.3 as nat,
        4,
    ) + be_bytes(h.4 as nat, 4)
}

/// The SHA-1 digest of `msg`.
pub open spec fn spec_sha1(msg: Seq<u8>) -> Seq<u8> {
    digest_bytes(hash_blocks(pad(msg), pad(msg).len() / 64))
}

fn rot1(x: u32) -> (r: u32)
    ensures
        r == rotl1(x),
{
    (x << 1u32) | (x >> 31u32)
}

fn rot5(x: u32) -> (r: u32)
    ensures
        r == rotl5(x),
{
    (x << 5u32) | (x >> 27u32)
}

fn rot30(x: u32) -> (r: u32)
    ensures
        r == rotl30(x),
{
    (x << 30u32) | (x >> 2u32)
}

fn add32(a: u32, b: u32) -> (r: u32)
    ensures
        r == wadd(a, b),
{
    a.wrapping_add(b)
}

fn f_t(t: usize, b: u32, c: u32, d: u32) -> (r: u32)
    ensures
        r == round_fn(t as int, b, c, d),
{
    if t < 20 {
        (b & c) | (!b & d)
    } else if t < 40 {
        b ^ c ^ d
    } else if t < 60 {
        (b & c) | (b & d) | (c & d)
    } else {
        b ^ c ^ d
    }
}

fn k_t(t: usize) -> (r: u32)
    ensures
        r == round_const(t as int),
{
    if t < 20 {
        0x5A827999
    } else if t < 40 {
        0x6ED9EBA1
    } else if t < 60 {
        0x8F1BBCDC
    } else {
        0xCA62C1D6
    }
}

proof fn lemma_pow256_4()
    ensures
        crate::bytes::pow256(4) == 0x1_0000_0000,
{
    reveal_with_fuel(crate::bytes::pow256, 5);
}

/// The chaining value after the block of `buf` at `off`.
fn compress_block(h: Words5, buf: &[u8], off: usize) -> (r: Words5)
    requires
        off + 64 <= buf@.len(),
    ensures
        r == compress(h, buf@.subrange(off as int, off + 64)),
{
    let ghost block = buf@.subrange(off as int, off + 64);
    let blen = buf.len();
    let mut w: Vec<u32> = Vec::new();
    let mut t: usize = 0;
    while t < 80
        invariant
            off + 64 <= buf@.len(),
            blen == buf@.len(),
            block == buf@.subrange(off as int, off + 64),
            t <= 80,
            w@.len() == t,
            forall|j: int| 0 <= j < t ==> w@[j] == schedule(block, j as nat),
        decreases 80 - t,
    {
        if t < 16 {
            let v = be_decode(buf, off + 4 * t, 4);
            proof {
                assert(buf@.subrange(off + 4 * t, off + 4 * t + 4) =~= block.subrange(
                    4 * t,
                    4 * t + 4,
                ));
                lemma_be_value_bound(block.subrange(4 * t, 4 * t + 4));
                lemma_pow256_4();
            }
            w.push(v as u32);
        } else {
            let x = w[t - 3] ^ w[t - 8] ^ w[t - 14] ^ w[t - 16];
            w.push(rot1(x));
        }
        t = t + 1;
    }
    let mut s: Words5 = h;
    t = 0;
    while t < 80
        invariant
            off + 64 <= buf@.len(),
            block == buf@.subrange(off as int, off + 64),
            t <= 80,
            w@.len() == 80,
            forall|j: int| 0 <= j < 80 ==> w@[j] == schedule(block, j as nat),
            s == rounds(block, h, t as nat),
        decreases 80 - t,
    {
        let temp = add32(add32(add32(add32(rot5(s.0), f_t(t, s.1, s.2, s.3)), s.4), w[t]), k_t(t));
        s = (temp, s.0, rot30(s.1), s.2, s.3);
        t = t + 1;
    }
    (add32(h.0, s.0), add32(h.1, s.1), add32(h.2, s.2), add32(h.3, s.3), add32(h.4, s.4))
}

/// The padded message.
fn pad_message(data: &[u8]) -> (out: Vec<u8>)
    requires
        data@.len() + 72 <= usize::MAX,
    ensures
        out@ == pad(data@),
        out@.len() % 64 == 0,
{
    let mut out: Vec<u8> = Vec::new();
    append_bytes(&mut out, data);
    out.push(0x80);
    let n = data.len();
    let zeros = (119 - n % 64) % 64;
    let mut i: usize = 0;
    while i < zeros
        invariant
            i <= zeros,
            zeros == zero_pad_len(n as nat),
            n == data@.len(),
            out@ == data@ + seq![0x80u8] + Seq::new(i as nat, |j: int| 0u8),
        decreases zeros - i,
    {
        out.push(0);
        i = i + 1;
        assert(out@ =~= data@ + seq![0x80u8] + Seq::new(i as nat, |j: int| 0u8));
    }
    let bits = ((n as u64) % 0x2000_0000_0000_0000) * 8;
    assert(bits == bit_len(n as nat)) by (nonlinear_arith)
        requires
            bits == ((n as u64) % 0x2000_0000_0000_0000) * 8,
    ;
    let tail = be_encode(bits, 8);
    append_bytes(&mut out, tail.as_slice());
    proof {
        lemma_be_bytes_len(bit_len(n as nat), 8);
    }
    out
}

/// The SHA-1 digest of `data`, 20 bytes.
pub fn sha1(data: &[u8]) -> (digest: Vec<u8>)
    requires
        data@.len() + 72 <= usize::MAX,
    ensures
        digest@ == spec_sha1(data@),
{
    let padded = pad_message(data);
    let plen = padded.len();
    let nblocks = plen / 64;
    let mut h: Words5 = (0x67452301, 0xEFCDAB89, 0x98BADCFE, 0x10325476, 0xC3D2E1F0);
    let mut b: usize = 0;
    while b < nblocks
        invariant
            plen == padded@.len(),
            nblocks == padded@.len() / 64,
            padded@.len() % 64 == 0,
            b <= nblocks,
            h == hash_blocks(padded@, b as nat),
        decreases nblocks - b,
    {
        assert(64 * b + 64 <= padded@.len()) by (nonlinear_arith)
            requires
                b < nblocks,
                nblocks == padded@.len() / 64,
        ;
        h = compress_block(h, padded.as_slice(), 64 * b);
        b = b + 1;
    }
    let mut digest: Vec<u8> = Vec::new();
    let w0 = be_encode(h.0 as u64, 4);
    let w1 = be_encode(h.1 as u64, 4);
    let w2 = be_encode(h.2 as u64, 4);
    let w3 = be_encode(h.3 as u64, 4);
    let w4 = be_encode(h.4 as u64, 4);
    append_bytes(&mut digest, w0.as_slice());
    append_bytes(&mut digest, w1.as_slice());
    append_bytes(&mut digest, w2.as_slice());
    append_bytes(&mut digest, w3.as_slice());
    append_bytes(&mut digest, w4.as_slice());
    digest
}

/// A SHA-1 digest is 20 bytes long, whatever the message.
pub proof fn lemma_digest_len(msg: Seq<u8>)
    ensures
        spec_sha1(msg).len() == 20,
{
    let h = hash_blocks(pad(msg), pad(msg).len() / 64);
    lemma_be_bytes_len(h.0 as nat, 4);
    lemma_be_bytes_len(h.1 as nat, 4);
    lemma_be_bytes_len(h.2 as nat, 4);
    lemma_be_bytes_len(h.3 as nat, 4);
    lemma_be_bytes_len(h.4 as nat, 4);
}

/// The padded message keeps the message in front, fills whole 64-byte
/// blocks, and adds between 9 and 72 bytes.
pub proof fn lemma_pad_shape(msg: Seq<u8>)
    ensures
        pad(msg).len() % 64 == 0,
        msg.len() + 9 <= pad(msg).len() <= msg.len() + 72,
        pad(msg).take(msg.len() as int) == msg,
        pad(msg)[msg.len() as int] == 0x80,
{
    lemma_be_bytes_len(bit_len(msg.len()), 8);
    assert(pad(msg).take(msg.len() as int) =~= msg);
}

} // verus!
