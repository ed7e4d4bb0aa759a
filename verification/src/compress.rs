//! Portable implementation of the SHA-1 compression function, proved
//! bit-for-bit equal to the model in `model`.
use vstd::prelude::*;
use crate::model::{
    be_word, compress_block, iv, mix_rounds, mix_step, rotl, round_f, round_k, sched,
};

verus! {

/// A list of whole 64-byte blocks folded through the compression function,
/// first block first.
pub open spec fn compress_list(s: Seq<u32>, blocks: Seq<[u8; 64]>) -> Seq<u32>
    recommends
        s.len() == 5,
    decreases blocks.len(),
{
    if blocks.len() == 0 {
        s
    } else {
        compress_list(compress_block(s, blocks[0]@), blocks.skip(1))
    }
}

fn rotl_exec(x: u32, n: u32) -> (r: u32)
    requires
        0 < n < 32,
    ensures
        r == rotl(x, n),
{
    (x << n) | (x >> (32 - n))
}

/// Expands the 64 bytes at `off` into the 80-word message schedule.
fn schedule(block: &[u8], off: usize) -> (w: Vec<u32>)
    requires
        off + 64 <= block@.len(),
    ensures
        w@.len() == 80,
        forall|t: int|
            0 <= t < 80 ==> w@[t] == sched(block@.subrange(off as int, off as int + 64), t),
{
    let ghost blk = block@.subrange(off as int, off as int + 64);
    let n = block.len();
    let mut w: Vec<u32> = Vec::new();
    let mut t: usize = 0;
    while t < 16
        invariant
            t <= 16,
            n == block@.len(),
            off + 64 <= block@.len(),
            blk == block@.subrange(off as int, off as int + 64),
            w@.len() == t,
            forall|j: int| 0 <= j < t ==> w@[j] == sched(blk, j),
        decreases 16 - t,
    {
        let b0 = block[off + 4 * t];
        let b1 = block[off + 4 * t + 1];
        let b2 = block[off + 4 * t + 2];
        let b3 = block[off + 4 * t + 3];
        let word = ((b0 as u32) << 24u32) | ((b1 as u32) << 16u32) | ((b2 as u32) << 8u32) | (b3
            as u32);
        proof {
            assert(blk[4 * t as int] == block@[off + 4 * t]);
            assert(blk[4 * t as int + 1] == block@[off + 4 * t + 1]);
            assert(blk[4 * t as int + 2] == block@[off + 4 * t + 2]);
            assert(blk[4 * t as int + 3] == block@[off + 4 * t + 3]);
            assert(word == be_word(blk, t as int));
        }
        w.push(word);
        t += 1;
    }
    while t < 80
        invariant
            16 <= t <= 80,
            off + 64 <= block@.len(),
            blk == block@.subrange(off as int, off as int + 64),
            w@.len() == t,
            forall|j: int| 0 <= j < t ==> w@[j] == sched(blk, j),
        decreases 80 - t,
    {
        let x = w[t - 16] ^ w[t - 14] ^ w[t - 8] ^ w[t - 3];
        let word = rotl_exec(x, 1);
        proof {
            assert(x == sched(blk, t as int - 16) ^ sched(blk, t as int - 14) ^ sched(
                blk,
                t as int - 8,
            ) ^ sched(blk, t as int - 3));
            assert(word == sched(blk, t as int));
        }
        w.push(word);
        t += 1;
    }
    w
}

/// Runs the compression function over the 64-byte block found at byte
/// offset `off` of `block`, updating `state` in place.
pub fn compress_chunk(state: &mut [u32; 5], block: &[u8], off: usize)
    requires
        off + 64 <= block@.len(),
    ensures
        final(state)@ == compress_block(old(state)@, block@.subrange(off as int, off as int + 64)),
{
    let ghost blk = block@.subrange(off as int, off as int + 64);
    let w = schedule(block, off);
    let mut a = state[0];
    let mut b = state[1];
    let mut c = state[2];
    let mut d = state[3];
    let mut e = state[4];
    let ghost init = (a, b, c, d, e);
    let mut t: usize = 0;
    while t < 80
        invariant
            t <= 80,
            w@.len() == 80,
            forall|j: int| 0 <= j < 80 ==> w@[j] == sched(blk, j),
            (a, b, c, d, e) == mix_rounds(blk, init, t as int),
        decreases 80 - t,
    {
        let fk: (u32, u32) = if t < 20 {
            ((b & c) | ((!b) & d), 0x5A827999u32)
        } else if t < 40 {
            (b ^ c ^ d, 0x6ED9EBA1u32)
        } else if t < 60 {
            ((b & c) | (b & d) | (c & d), 0x8F1BBCDCu32)
        } else {
            (b ^ c ^ d, 0xCA62C1D6u32)
        };
        let temp = rotl_exec(a, 5).wrapping_add(fk.0).wrapping_add(e).wrapping_add(
            fk.1,
        ).wrapping_add(w[t]);
        proof {
            assert(fk.0 == round_f(t as int, b, c, d));
            assert(fk.1 == round_k(t as int));
            assert(mix_rounds(blk, init, t as int + 1) == mix_step(
                blk,
                mix_rounds(blk, init, t as int),
                t as int,
            ));
        }
        e = d;
        d = c;
        c = rotl_exec(b, 30);
        b = a;
        a = temp;
        t += 1;
    }
    let s0 = state[0];
    let s1 = state[1];
    let s2 = state[2];
    let s3 = state[3];
    let s4 = state[4];
    state[0] = s0.wrapping_add(a);
    state[1] = s1.wrapping_add(b);
    state[2] = s2.wrapping_add(c);
    state[3] = s3.wrapping_add(d);
    state[4] = s4.wrapping_add(e);
    proof {
        assert(final(state)@ =~= compress_block(old(state)@, blk));
    }
}

/// Backend-uniform entry point: applies the compression function to each
/// 64-byte block in order, mutating `state` in place. Every backend meets
/// exactly this contract, so all backends produce bit-identical states.
pub fn compress(state: &mut [u32; 5], blocks: &[[u8; 64]])
    ensures
        final(state)@ == compress_list(old(state)@, blocks@),
{
    let n = blocks.len();
    proof {
        assert(blocks@.skip(0) =~= blocks@);
    }
    let mut i: usize = 0;
    while i < n
        invariant
            i <= n,
            n == blocks@.len(),
            compress_list(state@, blocks@.skip(i as int)) == compress_list(old(state)@, blocks@),
        decreases n - i,
    {
        let ghost pre = state@;
        let block: &[u8; 64] = &blocks[i];
        compress_chunk(state, block, 0);
        proof {
            assert(block@.subrange(0, 64) =~= blocks@[i as int]@);
            assert(blocks@.skip(i as int)[0] == blocks@[i as int]);
            assert(blocks@.skip(i as int).skip(1) =~= blocks@.skip(i as int + 1));
            assert(compress_list(pre, blocks@.skip(i as int)) == compress_list(
                state@,
                blocks@.skip(i as int + 1),
            ));
        }
        i += 1;
    }
    proof {
        assert(blocks@.skip(n as int) =~= Seq::<[u8; 64]>::empty());
    }
}

/// Backend equivalence: the contract of `compress` pins the output state
/// to a single value for every incoming state and block list, so any two
/// backends that meet it produce bit-identical results.
pub proof fn lemma_backend_equivalence(
    s: Seq<u32>,
    blocks: Seq<[u8; 64]>,
    r1: Seq<u32>,
    r2: Seq<u32>,
)
    requires
        r1 == compress_list(s, blocks),
        r2 == compress_list(s, blocks),
    ensures
        r1 == r2,
{
}

/// A fresh five-word state holding the fixed initial values.
pub fn initial_state() -> (r: [u32; 5])
    ensures
        r@ == iv(),
{
    let r: [u32; 5] = [0x67452301u32, 0xEFCDAB89u32, 0x98BADCFEu32, 0x10325476u32, 0xC3D2E1F0u32];
    proof {
        assert(r@ =~= iv());
    }
    r
}

} // verus!
