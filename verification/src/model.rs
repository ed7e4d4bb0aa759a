//! Mathematical model of the SHA-1 transform: message schedule, round
//! mixing, block compression, padding and digest serialization. Every
//! executable routine in this crate is proved against these functions.
use vstd::prelude::*;
use vstd::arithmetic::div_mod::{lemma_add_mod_noop, lemma_mul_mod_noop_left, lemma_small_mod};

verus! {

/// The fixed five-word initial state A..E.
pub open spec fn iv() -> Seq<u32> {
    seq![0x67452301u32, 0xEFCDAB89u32, 0x98BADCFEu32, 0x10325476u32, 0xC3D2E1F0u32]
}

/// Addition of 32-bit words modulo 2^32, phrased to match the
/// specification vstd gives to `u32::wrapping_add`.
pub open spec fn add32(x: u32, y: u32) -> u32 {
    if x + y > u32::MAX {
        (x + y - 0x1_0000_0000) as u32
    } else {
        (x + y) as u32
    }
}

/// Rotate a 32-bit word left by `n` bits, `0 < n < 32`.
pub open spec fn rotl(x: u32, n: u32) -> u32
    recommends
        0 < n < 32,
{
    (x << n) | (x >> ((32 - n) as u32))
}

/// The round-dependent boolean function on words b, c, d.
pub open spec fn round_f(t: int, b: u32, c: u32, d: u32) -> u32
    recommends
        0 <= t < 80,
{
    if t < 20 {
        (b & c) | ((!b) & d)
    } else if t < 40 {
        b ^ c ^ d
    } else if t < 60 {
        (b & c) | (b & d) | (c & d)
    } else {
        b ^ c ^ d
    }
}

/// The round-dependent additive constant.
pub open spec fn round_k(t: int) -> u32
    recommends
        0 <= t < 80,
{
    if t < 20 {
        0x5A827999u32
    } else if t < 40 {
        0x6ED9EBA1u32
    } else if t < 60 {
        0x8F1BBCDCu32
    } else {
        0xCA62C1D6u32
    }
}

/// Word `i` of a 64-byte block, read big-endian.
pub open spec fn be_word(blk: Seq<u8>, i: int) -> u32
    recommends
        blk.len() == 64,
        0 <= i < 16,
{
    ((blk[4 * i] as u32) << 24u32) | ((blk[4 * i + 1] as u32) << 16u32) | ((blk[4 * i + 2]
        as u32) << 8u32) | (blk[4 * i + 3] as u32)
}

/// Word `t` of the 80-word message schedule expanded from one block.
pub open spec fn sched(blk: Seq<u8>, t: int) -> u32
    recommends
        blk.len() == 64,
        0 <= t < 80,
    decreases t,
{
    if t < 16 {
        be_word(blk, t)
    } else {
        rotl(sched(blk, t - 16) ^ sched(blk, t - 14) ^ sched(blk, t - 8) ^ sched(blk, t - 3), 1)
    }
}

/// One round of mixing: the working variables (a,b,c,d,e) after round `t`,
/// given their values before it.
pub open spec fn mix_step(blk: Seq<u8>, s: (u32, u32, u32, u32, u32), t: int) -> (
    u32,
    u32,
    u32,
    u32,
    u32,
)
    recommends
        blk.len() == 64,
        0 <= t < 80,
{
    let temp = add32(
        add32(add32(add32(rotl(s.0, 5), round_f(t, s.1, s.2, s.3)), s.4), round_k(t)),
        sched(blk, t),
    );
    (temp, s.0, rotl(s.1, 30), s.2, s.3)
}

/// The working variables after the first `t` rounds on one block.
pub open spec fn mix_rounds(blk: Seq<u8>, s: (u32, u32, u32, u32, u32), t: int) -> (
    u32,
    u32,
    u32,
    u32,
    u32,
)
    recommends
        blk.len() == 64,
        0 <= t <= 80,
    decreases t,
{
    if t <= 0 {
        s
    } else {
        mix_step(blk, mix_rounds(blk, s, t - 1), t - 1)
    }
}

/// The compression function: 80 rounds over one 64-byte block followed by
/// the feed-forward addition of the incoming state.
pub open spec fn compress_block(s: Seq<u32>, blk: Seq<u8>) -> Seq<u32>
    recommends
        s.len() == 5,
        blk.len() == 64,
{
    let m = mix_rounds(blk, (s[0], s[1], s[2], s[3], s[4]), 80);
    seq![
        add32(s[0], m.0),
        add32(s[1], m.1),
        add32(s[2], m.2),
        add32(s[3], m.3),
        add32(s[4], m.4),
    ]
}

/// Compression folded over a block-aligned byte sequence, first block first.
pub open spec fn compress_blocks(s: Seq<u32>, msg: Seq<u8>) -> Seq<u32>
    recommends
        s.len() == 5,
        msg.len() % 64 == 0,
    decreases msg.len(),
{
    if msg.len() < 64 {
        s
    } else {
        compress_blocks(compress_block(s, msg.take(64)), msg.skip(64))
    }
}

/// The number of zero bytes the padding inserts after the 0x80 marker.
pub open spec fn zero_pad_len(len: nat) -> nat {
    if len % 64 < 56 {
        (55 - len % 64) as nat
    } else {
        (119 - len % 64) as nat
    }
}

/// The 64-bit message bit count stored in the padding trailer: the byte
/// count times eight, reduced modulo 2^64.
pub open spec fn bit_count(len: nat) -> u64 {
    ((len * 8) % 0x1_0000_0000_0000_0000) as u64
}

/// A `u64` serialized as 8 big-endian bytes.
pub open spec fn be64_bytes(x: u64) -> Seq<u8> {
    seq![
        ((x >> 56u64) & 0xff) as u8,
        ((x >> 48u64) & 0xff) as u8,
        ((x >> 40u64) & 0xff) as u8,
        ((x >> 32u64) & 0xff) as u8,
        ((x >> 24u64) & 0xff) as u8,
        ((x >> 16u64) & 0xff) as u8,
        ((x >> 8u64) & 0xff) as u8,
        (x & 0xff) as u8,
    ]
}

/// A `u32` serialized as 4 big-endian bytes.
pub open spec fn be32_bytes(w: u32) -> Seq<u8> {
    seq![
        ((w >> 24u32) & 0xff) as u8,
        ((w >> 16u32) & 0xff) as u8,
        ((w >> 8u32) & 0xff) as u8,
        (w & 0xff) as u8,
    ]
}

/// The padding appended to a message of `len` bytes: a 0x80 marker, zeros
/// up to 56 mod 64, then the big-endian bit count.
pub open spec fn pad(len: nat) -> Seq<u8> {
    seq![0x80u8] + Seq::new(zero_pad_len(len), |i: int| 0u8) + be64_bytes(bit_count(len))
}

/// A five-word state serialized as 20 big-endian bytes.
pub open spec fn words_bytes(s: Seq<u32>) -> Seq<u8>
    recommends
        s.len() == 5,
{
    be32_bytes(s[0]) + be32_bytes(s[1]) + be32_bytes(s[2]) + be32_bytes(s[3]) + be32_bytes(s[4])
}

/// The SHA-1 digest of an arbitrary byte sequence.
pub open spec fn digest_of(msg: Seq<u8>) -> Seq<u8> {
    words_bytes(compress_blocks(iv(), msg + pad(msg.len())))
}

/// Folding the compression over a single block is one application of the
/// compression function.
pub proof fn lemma_compress_one(s: Seq<u32>, b: Seq<u8>)
    requires
        b.len() == 64,
    ensures
        compress_blocks(s, b) == compress_block(s, b),
{
    assert(b.take(64) =~= b);
    assert(b.skip(64).len() == 0);
    assert(compress_blocks(compress_block(s, b), b.skip(64)) == compress_block(s, b));
}

/// Streaming law: a block-aligned message may be absorbed in one run or in
/// two sequential runs; the resulting state is the same.
pub proof fn lemma_compress_blocks_append(s: Seq<u32>, m1: Seq<u8>, m2: Seq<u8>)
    requires
        m1.len() % 64 == 0,
        m2.len() % 64 == 0,
    ensures
        compress_blocks(s, m1 + m2) == compress_blocks(compress_blocks(s, m1), m2),
    decreases m1.len(),
{
    if m1.len() == 0 {
        assert(m1 + m2 =~= m2);
    } else {
        assert(m1.len() >= 64);
        assert((m1 + m2).len() >= 64);
        assert((m1 + m2).take(64) =~= m1.take(64));
        assert((m1 + m2).skip(64) =~= m1.skip(64) + m2);
        assert(m1.skip(64).len() == m1.len() - 64);
        assert(m1.len() % 64 == 0 && m1.len() >= 64 ==> (m1.len() - 64) % 64 == 0) by {
            lemma_add_mod_noop(m1.len() - 64, 64, 64);
        }
        lemma_compress_blocks_append(compress_block(s, m1.take(64)), m1.skip(64), m2);
        assert(compress_blocks(s, m1) == compress_blocks(
            compress_block(s, m1.take(64)),
            m1.skip(64),
        ));
    }
}

/// Absorbing one more whole block extends the fold by one compression.
pub proof fn lemma_compress_blocks_snoc(s: Seq<u32>, m: Seq<u8>, b: Seq<u8>)
    requires
        m.len() % 64 == 0,
        b.len() == 64,
    ensures
        compress_blocks(s, m + b) == compress_block(compress_blocks(s, m), b),
{
    lemma_compress_blocks_append(s, m, b);
    lemma_compress_one(compress_blocks(s, m), b);
}

/// Padding always realigns the message to a whole number of blocks, adding
/// one trailing block when at least nine bytes are free in the last block
/// and two otherwise.
pub proof fn lemma_pad_blocks(len: nat)
    ensures
        pad(len).len() == zero_pad_len(len) + 9,
        (len + pad(len).len()) % 64 == 0,
        len % 64 < 56 ==> len + pad(len).len() == len - (len % 64) + 64,
        len % 64 >= 56 ==> len + pad(len).len() == len - (len % 64) + 128,
{
    let n = pad(len).len();
    assert(n == zero_pad_len(len) + 9);
    vstd::arithmetic::div_mod::lemma_fundamental_div_mod(len as int, 64);
    if len % 64 < 56 {
        assert(len + n == len - (len % 64) + 64);
        assert((len + n) % 64 == 0) by {
            lemma_add_mod_noop(len as int - (len as int % 64), 64, 64);
            vstd::arithmetic::div_mod::lemma_mod_multiples_basic(64 * (len as int / 64), 64);
            lemma_small_mod(0, 64);
        }
    } else {
        assert(len + n == len - (len % 64) + 128);
        assert((len + n) % 64 == 0) by {
            lemma_add_mod_noop(len as int - (len as int % 64), 128, 64);
            vstd::arithmetic::div_mod::lemma_mod_multiples_basic(64 * (len as int / 64), 64);
            lemma_small_mod(0, 64);
        }
    }
}

/// The last eight bytes of the padding are the cumulative byte count times
/// eight, serialized big-endian.
pub proof fn lemma_pad_bit_count_field(len: nat)
    ensures
        pad(len).len() >= 9,
        pad(len).skip(pad(len).len() - 8) =~= be64_bytes(bit_count(len)),
{
}

/// The bit count is unchanged by first reducing the byte count modulo 2^64,
/// which is how the running 64-bit counter stores it.
pub proof fn lemma_bit_count_wraps(len: nat)
    ensures
        bit_count(len) == ((len % 0x1_0000_0000_0000_0000) * 8) % 0x1_0000_0000_0000_0000,
{
    lemma_mul_mod_noop_left(len as int, 8, 0x1_0000_0000_0000_0000);
}

} // verus!
