//! The streaming hashing context: absorbs arbitrary-length input across
//! repeated `update` calls, then pads, compresses the trailing block(s) and
//! emits the 20-byte digest on `finalize`.
use vstd::prelude::*;
use vstd::arithmetic::div_mod::{
    lemma_add_mod_noop, lemma_mod_sub_multiples_vanish, lemma_small_mod,
};
use crate::compress::{compress_chunk, initial_state};
use crate::model::{
    bit_count, compress_blocks, digest_of, iv, lemma_bit_count_wraps, lemma_compress_blocks_snoc,
    lemma_pad_blocks, pad, words_bytes, zero_pad_len,
};

verus! {

/// The error reported on a state-machine violation: the context was used
/// again after it had already been finalized.
#[derive(Clone, Copy, Debug, PartialEq, Eq, Structural)]
pub enum Sha1Error {
    AlreadyFinalized,
}

/// Relates the running state, the pending buffer and the running byte
/// counter to the whole message absorbed so far.
spec fn inv_core(state: Seq<u32>, buf: Seq<u8>, count: u64, m: Seq<u8>) -> bool {
    &&& buf.len() < 64
    &&& buf.len() <= m.len()
    &&& (m.len() - buf.len()) % 64 == 0
    &&& buf == m.skip(m.len() - buf.len())
    &&& state == compress_blocks(iv(), m.take(m.len() - buf.len()))
    &&& count as nat == m.len() % 0x1_0000_0000_0000_0000
}

/// Appends the padding for a message of `mlen` bytes: the 0x80 marker,
/// zeros up to 56 mod 64, then the big-endian bit count taken from the
/// running counter.
fn append_padding(buf: &mut Vec<u8>, count: u64, Ghost(mlen): Ghost<nat>)
    requires
        old(buf)@.len() < 64,
        mlen % 64 == old(buf)@.len(),
        count as nat == mlen % 0x1_0000_0000_0000_0000,
    ensures
        final(buf)@ == old(buf)@ + pad(mlen),
{
    let ghost tail = buf@;
    buf.push(0x80u8);
    let zeros: usize = if buf.len() <= 56 {
        56 - buf.len()
    } else {
        120 - buf.len()
    };
    proof {
        assert(zeros == zero_pad_len(mlen));
    }
    let ghost base = buf@;
    let mut j: usize = 0;
    proof {
        assert(base + Seq::new(0, |q: int| 0u8) =~= base);
    }
    while j < zeros
        invariant
            j <= zeros,
            buf@ == base + Seq::new(j as nat, |q: int| 0u8),
        decreases zeros - j,
    {
        buf.push(0u8);
        proof {
            assert(base + Seq::new((j + 1) as nat, |q: int| 0u8) =~= (base + Seq::new(
                j as nat,
                |q: int| 0u8,
            )).push(0u8));
        }
        j += 1;
    }
    let bits = count.wrapping_mul(8);
    proof {
        lemma_bit_count_wraps(mlen);
        assert(bits == bit_count(mlen));
    }
    buf.push(((bits >> 56u64) & 0xff) as u8);
    buf.push(((bits >> 48u64) & 0xff) as u8);
    buf.push(((bits >> 40u64) & 0xff) as u8);
    buf.push(((bits >> 32u64) & 0xff) as u8);
    buf.push(((bits >> 24u64) & 0xff) as u8);
    buf.push(((bits >> 16u64) & 0xff) as u8);
    buf.push(((bits >> 8u64) & 0xff) as u8);
    buf.push((bits & 0xff) as u8);
    proof {
        assert(buf@ =~= tail + pad(mlen));
    }
}

/// Serializes the five state words as 20 big-endian bytes.
fn state_bytes(state: &[u32; 5]) -> (out: [u8; 20])
    ensures
        out@ == words_bytes(state@),
{
    let mut out: [u8; 20] = [0u8; 20];
    let w0 = state[0];
    let w1 = state[1];
    let w2 = state[2];
    let w3 = state[3];
    let w4 = state[4];
    out[0] = ((w0 >> 24u32) & 0xff) as u8;
    out[1] = ((w0 >> 16u32) & 0xff) as u8;
    out[2] = ((w0 >> 8u32) & 0xff) as u8;
    out[3] = (w0 & 0xff) as u8;
    out[4] = ((w1 >> 24u32) & 0xff) as u8;
    out[5] = ((w1 >> 16u32) & 0xff) as u8;
    out[6] = ((w1 >> 8u32) & 0xff) as u8;
    out[7] = (w1 & 0xff) as u8;
    out[8] = ((w2 >> 24u32) & 0xff) as u8;
    out[9] = ((w2 >> 16u32) & 0xff) as u8;
    out[10] = ((w2 >> 8u32) & 0xff) as u8;
    out[11] = (w2 & 0xff) as u8;
    out[12] = ((w3 >> 24u32) & 0xff) as u8;
    out[13] = ((w3 >> 16u32) & 0xff) as u8;
    out[14] = ((w3 >> 8u32) & 0xff) as u8;
    out[15] = (w3 & 0xff) as u8;
    out[16] = ((w4 >> 24u32) & 0xff) as u8;
    out[17] = ((w4 >> 16u32) & 0xff) as u8;
    out[18] = ((w4 >> 8u32) & 0xff) as u8;
    out[19] = (w4 & 0xff) as u8;
    proof {
        assert(out@ =~= words_bytes(state@));
    }
    out
}

/// A streaming SHA-1 context. It owns the five-word running state, the
/// partial-block buffer (always shorter than a block between calls) and
/// the 64-bit total byte counter, which wraps modulo 2^64.
pub struct Sha1 {
    state: [u32; 5],
    buf: Vec<u8>,
    len: u64,
    finalized: bool,
    msg: Ghost<Seq<u8>>,
}

impl Sha1 {
    /// The whole byte sequence absorbed so far, across all `update` calls.
    pub closed spec fn absorbed(self) -> Seq<u8> {
        self.msg@
    }

    /// Whether `finalize` has already consumed this context.
    pub closed spec fn is_finalized(self) -> bool {
        self.finalized
    }

    /// The context invariant: until finalization, the running state is the
    /// compression of every completed block of the absorbed message, the
    /// buffer holds exactly the incomplete tail, and the counter holds the
    /// absorbed length modulo 2^64.
    pub closed spec fn wf(self) -> bool {
        self.finalized || inv_core(self.state@, self.buf@, self.len, self.msg@)
    }

    /// A fresh context: initial state, empty buffer, zero counter.
    pub fn new() -> (r: Sha1)
        ensures
            r.wf(),
            !r.is_finalized(),
            r.absorbed() == Seq::<u8>::empty(),
    {
        let r = Sha1 {
            state: initial_state(),
            buf: Vec::new(),
            len: 0,
            finalized: false,
            msg: Ghost(Seq::empty()),
        };
        proof {
            let m = Seq::<u8>::empty();
            assert(m.take(0) =~= m);
            assert(m.skip(0) =~= m);
            lemma_small_mod(0, 0x1_0000_0000_0000_0000);
            lemma_small_mod(0, 64);
        }
        r
    }

    /// Absorbs `data`. Input may be split across calls in any way: only the
    /// concatenation of everything absorbed determines the digest. Fails,
    /// changing nothing, when the context is already finalized.
    pub fn update(&mut self, data: &[u8]) -> (r: Result<(), Sha1Error>)
        requires
            old(self).wf(),
        ensures
            final(self).wf(),
            r is Ok <==> !old(self).is_finalized(),
            r is Err ==> r->Err_0 == Sha1Error::AlreadyFinalized,
            old(self).is_finalized() ==> *final(self) == *old(self),
            !old(self).is_finalized() ==> {
                &&& !final(self).is_finalized()
                &&& final(self).absorbed() == old(self).absorbed() + data@
            },
    {
        if self.finalized {
            return Err(Sha1Error::AlreadyFinalized);
        }
        let ghost m0 = self.msg@;
        let dn = data.len();
        proof {
            let q = 0x1_0000_0000_0000_0000int;
            lemma_small_mod(dn as nat, q as nat);
            lemma_add_mod_noop(m0.len() as int, dn as int, q);
            if self.len + dn > u64::MAX {
                lemma_mod_sub_multiples_vanish(self.len + dn, q);
                lemma_small_mod((self.len + dn - q) as nat, q as nat);
            } else {
                lemma_small_mod((self.len + dn) as nat, q as nat);
            }
        }
        self.len = self.len.wrapping_add(dn as u64);
        self.msg = Ghost(m0 + data@);
        let mut i: usize = 0;
        proof {
            assert(data@.take(0) =~= Seq::<u8>::empty());
            assert(m0 + data@.take(0) =~= m0);
        }
        while i < dn
            invariant
                i <= dn,
                dn == data@.len(),
                !self.finalized,
                self.msg@ == m0 + data@,
                self.len as nat == (m0 + data@).len() % 0x1_0000_0000_0000_0000,
                self.buf@.len() < 64,
                self.buf@.len() <= (m0 + data@.take(i as int)).len(),
                ((m0 + data@.take(i as int)).len() - self.buf@.len()) % 64 == 0,
                self.buf@ == (m0 + data@.take(i as int)).skip(
                    (m0 + data@.take(i as int)).len() - self.buf@.len(),
                ),
                self.state@ == compress_blocks(
                    iv(),
                    (m0 + data@.take(i as int)).take(
                        (m0 + data@.take(i as int)).len() - self.buf@.len(),
                    ),
                ),
            decreases dn - i,
        {
            let ghost mi = m0 + data@.take(i as int);
            let ghost buf0 = self.buf@;
            let b = data[i];
            self.buf.push(b);
            let ghost mi1 = m0 + data@.take(i as int + 1);
            proof {
                assert(data@.take(i as int + 1) =~= data@.take(i as int).push(data@[i as int]));
                assert(mi1 =~= mi.push(b));
            }
            if self.buf.len() == 64 {
                let ghost p = mi.take(mi.len() - 63);
                proof {
                    assert(buf0.len() == 63);
                    assert(mi1.take(mi1.len() - 64) =~= p);
                    assert(self.buf@ =~= mi1.skip(mi1.len() - 64));
                }
                let ghost st0 = self.state@;
                compress_chunk(&mut self.state, self.buf.as_slice(), 0);
                proof {
                    assert(self.buf@.subrange(0, 64) =~= self.buf@);
                    lemma_compress_blocks_snoc(iv(), p, self.buf@);
                    assert(p + self.buf@ =~= mi1);
                    assert(self.state@ == compress_blocks(iv(), mi1));
                }
                self.buf.clear();
                proof {
                    lemma_add_mod_noop(p.len() as int, 64, 64);
                    lemma_small_mod(0, 64);
                    assert(mi1.len() == p.len() + 64);
                    assert((mi1.len() - 0) % 64 == 0);
                    assert(mi1.skip(mi1.len() as int) =~= Seq::<u8>::empty());
                    assert(mi1.take(mi1.len() as int) =~= mi1);
                }
            } else {
                proof {
                    let k = mi.len() - buf0.len();
                    assert(mi1.skip(k) =~= mi.skip(k).push(b));
                    assert(mi1.take(k) =~= mi.take(k));
                }
            }
            i += 1;
        }
        proof {
            assert(data@.take(dn as int) =~= data@);
        }
        Ok(())
    }

    /// Applies the padding rule, compresses the one or two trailing blocks
    /// and returns the 20-byte digest of everything absorbed. Fails,
    /// changing nothing, on a second call: the context is consumed.
    pub fn finalize(&mut self) -> (r: Result<[u8; 20], Sha1Error>)
        requires
            old(self).wf(),
        ensures
            final(self).wf(),
            r is Ok <==> !old(self).is_finalized(),
            r is Err ==> r->Err_0 == Sha1Error::AlreadyFinalized,
            old(self).is_finalized() ==> *final(self) == *old(self),
            final(self).absorbed() == old(self).absorbed(),
            r is Ok ==> final(self).is_finalized() && r->Ok_0@ == digest_of(
                old(self).absorbed(),
            ),
    {
        if self.finalized {
            return Err(Sha1Error::AlreadyFinalized);
        }
        self.finalized = true;
        let ghost m = self.msg@;
        let ghost tail = self.buf@;
        let ghost p = m.take(m.len() - tail.len());
        proof {
            lemma_small_mod(tail.len(), 64);
            lemma_add_mod_noop(m.len() - tail.len(), tail.len() as int, 64);
            assert(m.len() % 64 == tail.len());
        }
        append_padding(&mut self.buf, self.len, Ghost(m.len()));
        let ghost mp = m + pad(m.len());
        let total = self.buf.len();
        proof {
            lemma_pad_blocks(m.len());
            assert(total == tail.len() + pad(m.len()).len());
            assert(total == 64 || total == 128);
            assert(p + self.buf@ =~= mp);
        }
        compress_chunk(&mut self.state, self.buf.as_slice(), 0);
        if total == 64 {
            proof {
                assert(self.buf@.subrange(0, 64) =~= self.buf@);
                lemma_compress_blocks_snoc(iv(), p, self.buf@);
                assert(p + self.buf@ =~= mp);
                assert(self.state@ == compress_blocks(iv(), mp));
            }
        } else {
            proof {
                let b1 = self.buf@.subrange(0, 64);
                let b2 = self.buf@.subrange(64, 128);
                lemma_compress_blocks_snoc(iv(), p, b1);
                lemma_add_mod_noop(p.len() as int, 64, 64);
                lemma_small_mod(0, 64);
                assert((p + b1).len() % 64 == 0);
                lemma_compress_blocks_snoc(iv(), p + b1, b2);
                assert((p + b1) + b2 =~= mp);
            }
            compress_chunk(&mut self.state, self.buf.as_slice(), 64);
            proof {
                assert(self.state@ == compress_blocks(iv(), mp));
            }
        }
        let out = state_bytes(&self.state);
        Ok(out)
    }
}

/// Streaming equivalence: the digest a context emits depends only on the
/// bytes it absorbed, never on how they were split across `update` calls.
/// Two contexts whose absorbed sequences agree — one fed a message whole,
/// one fed the same message piecewise — emit the same digest.
pub proof fn lemma_streaming_equivalence(c1: Sha1, c2: Sha1)
    requires
        c1.absorbed() == c2.absorbed(),
    ensures
        digest_of(c1.absorbed()) == digest_of(c2.absorbed()),
{
}

} // verus!
