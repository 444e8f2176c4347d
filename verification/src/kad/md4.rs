//! MD4 (RFC 1320), used for iMule keyword hashes and file identifiers.

use vstd::prelude::*;
use crate::kad::codec::{le32, u32_le, u64_le, push_u32_le, push_u64_le, get_u32_le, push_bytes};

verus! {

pub open spec fn f(x: u32, y: u32, z: u32) -> u32 {
    (x & y) | (!x & z)
}

pub open spec fn g(x: u32, y: u32, z: u32) -> u32 {
    (x & y) | (x & z) | (y & z)
}

pub open spec fn h(x: u32, y: u32, z: u32) -> u32 {
    x ^ y ^ z
}

/// Rotate left by `s` (0 < s < 32).
pub open spec fn rotl(x: u32, s: u32) -> u32 {
    (x << s) | (x >> (32 - s) as u32)
}

pub open spec fn wadd(a: u32, b: u32) -> u32 {
    ((a + b) % 0x1_0000_0000) as u32
}

#[verifier::opaque]
pub open spec fn ff(a: u32, b: u32, c: u32, d: u32, x: u32, s: u32) -> u32 {
    rotl(wadd(wadd(a, f(b, c, d)), x), s)
}

#[verifier::opaque]
pub open spec fn gg(a: u32, b: u32, c: u32, d: u32, x: u32, s: u32) -> u32 {
    rotl(wadd(wadd(wadd(a, g(b, c, d)), x), 0x5A82_7999), s)
}

#[verifier::opaque]
pub open spec fn hh(a: u32, b: u32, c: u32, d: u32, x: u32, s: u32) -> u32 {
    rotl(wadd(wadd(wadd(a, h(b, c, d)), x), 0x6ED9_EBA1), s)
}

fn rotl_exec(x: u32, s: u32) -> (r: u32)
    requires
        0 < s < 32,
    ensures
        r == rotl(x, s),
{
    (x << s) | (x >> (32 - s))
}

fn wadd_exec(a: u32, b: u32) -> (r: u32)
    ensures
        r == wadd(a, b),
{
    a.wrapping_add(b)
}

fn ff_exec(a: u32, b: u32, c: u32, d: u32, x: u32, s: u32) -> (r: u32)
    requires
        0 < s < 32,
    ensures
        r == ff(a, b, c, d, x, s),
{
    reveal(ff);
    rotl_exec(wadd_exec(wadd_exec(a, (b & c) | (!b & d)), x), s)
}

fn gg_exec(a: u32, b: u32, c: u32, d: u32, x: u32, s: u32) -> (r: u32)
    requires
        0 < s < 32,
    ensures
        r == gg(a, b, c, d, x, s),
{
    reveal(gg);
    rotl_exec(wadd_exec(wadd_exec(wadd_exec(a, (b & c) | (b & d) | (c & d)), x), 0x5A82_7999), s)
}

fn hh_exec(a: u32, b: u32, c: u32, d: u32, x: u32, s: u32) -> (r: u32)
    requires
        0 < s < 32,
    ensures
        r == hh(a, b, c, d, x, s),
{
    reveal(hh);
    rotl_exec(wadd_exec(wadd_exec(wadd_exec(a, b ^ c ^ d), x), 0x6ED9_EBA1), s)
}

/// The sixteen little-endian words of a 64-byte block.
pub open spec fn block_words(blk: Seq<u8>) -> Seq<u32> {
    Seq::new(16, |i: int| le32(blk, 4 * i) as u32)
}

pub struct Md4State {
    pub a: u32,
    pub b: u32,
    pub c: u32,
    pub d: u32,
}

#[verifier::opaque]
pub open spec fn round1(st: Md4State, x: Seq<u32>) -> Md4State {
    let a = ff(st.a, st.b, st.c, st.d, x[0], 3);
    let d = ff(st.d, a, st.b, st.c, x[1], 7);
    let c = ff(st.c, d, a, st.b, x[2], 11);
    let b = ff(st.b, c, d, a, x[3], 19);
    let a = ff(a, b, c, d, x[4], 3);
    let d = ff(d, a, b, c, x[5], 7);
    let c = ff(c, d, a, b, x[6], 11);
    let b = ff(b, c, d, a, x[7], 19);
    let a = ff(a, b, c, d, x[8], 3);
    let d = ff(d, a, b, c, x[9], 7);
    let c = ff(c, d, a, b, x[10], 11);
    let b = ff(b, c, d, a, x[11], 19);
    let a = ff(a, b, c, d, x[12], 3);
    let d = ff(d, a, b, c, x[13], 7);
    let c = ff(c, d, a, b, x[14], 11);
    let b = ff(b, c, d, a, x[15], 19);
    Md4State { a, b, c, d }
}

#[verifier::opaque]
pub open spec fn round2(st: Md4State, x: Seq<u32>) -> Md4State {
    let a = gg(st.a, st.b, st.c, st.d, x[0], 3);
    let d = gg(st.d, a, st.b, st.c, x[4], 5);
    let c = gg(st.c, d, a, st.b, x[8], 9);
    let b = gg(st.b, c, d, a, x[12], 13);
    let a = gg(a, b, c, d, x[1], 3);
    let d = gg(d, a, b, c, x[5], 5);
    let c = gg(c, d, a, b, x[9], 9);
    let b = gg(b, c, d, a, x[13], 13);
    let a = gg(a, b, c, d, x[2], 3);
    let d = gg(d, a, b, c, x[6], 5);
    let c = gg(c, d, a, b, x[10], 9);
    let b = gg(b, c, d, a, x[14], 13);
    let a = gg(a, b, c, d, x[3], 3);
    let d = gg(d, a, b, c, x[7], 5);
    let c = gg(c, d, a, b, x[11], 9);
    let b = gg(b, c, d, a, x[15], 13);
    Md4State { a, b, c, d }
}

#[verifier::opaque]
pub open spec fn round3(st: Md4State, x: Seq<u32>) -> Md4State {
    let a = hh(st.a, st.b, st.c, st.d, x[0], 3);
    let d = hh(st.d, a, st.b, st.c, x[8], 9);
    let c = hh(st.c, d, a, st.b, x[4], 11);
    let b = hh(st.b, c, d, a, x[12], 15);
    let a = hh(a, b, c, d, x[2], 3);
    let d = hh(d, a, b, c, x[10], 9);
    let c = hh(c, d, a, b, x[6], 11);
    let b = hh(b, c, d, a, x[14], 15);
    let a = hh(a, b, c, d, x[1], 3);
    let d = hh(d, a, b, c, x[9], 9);
    let c = hh(c, d, a, b, x[5], 11);
    let b = hh(b, c, d, a, x[13], 15);
    let a = hh(a, b, c, d, x[3], 3);
    let d = hh(d, a, b, c, x[11], 9);
    let c = hh(c, d, a, b, x[7], 11);
    let b = hh(b, c, d, a, x[15], 15);
    Md4State { a, b, c, d }
}

/// The MD4 compression function on one 64-byte block.
#[verifier::opaque]
pub open spec fn compress(st: Md4State, blk: Seq<u8>) -> Md4State {
    let x = block_words(blk);
    let r = round3(round2(round1(st, x), x), x);
    Md4State { a: wadd(r.a, st.a), b: wadd(r.b, st.b), c: wadd(r.c, st.c), d: wadd(r.d, st.d) }
}

pub open spec fn init_state() -> Md4State {
    Md4State { a: 0x6745_2301, b: 0xEFCD_AB89, c: 0x98BA_DCFE, d: 0x1032_5476 }
}

/// Compress every complete 64-byte block of `m` (a multiple of 64 long).
pub open spec fn compress_blocks(st: Md4State, m: Seq<u8>) -> Md4State
    decreases m.len(),
{
    if m.len() < 64 {
        st
    } else {
        compress_blocks(compress(st, m.subrange(0, 64)), m.subrange(64, m.len() as int))
    }
}

/// Message length in bits as written into the padding (saturating at 2^64-1).
pub open spec fn bit_len(len: nat) -> u64 {
    let l: int = if len > 0xFFFF_FFFF_FFFF_FFFF {
        0xFFFF_FFFF_FFFF_FFFF
    } else {
        len as int
    };
    if l * 8 > 0xFFFF_FFFF_FFFF_FFFF {
        0xFFFF_FFFF_FFFF_FFFF
    } else {
        (l * 8) as u64
    }
}

pub open spec fn zeros(n: nat) -> Seq<u8> {
    Seq::new(n, |i: int| 0u8)
}

/// Padding: 0x80, zeros up to 56 mod 64, then the 64-bit bit length.
pub open spec fn pad(m: Seq<u8>) -> Seq<u8> {
    m + seq![0x80u8] + zeros(((119 - (m.len() % 64)) % 64) as nat) + u64_le(bit_len(m.len()))
}

pub open spec fn encode_state(st: Md4State) -> Seq<u8> {
    u32_le(st.a) + u32_le(st.b) + u32_le(st.c) + u32_le(st.d)
}

/// The MD4 digest of a message.
pub open spec fn md4(m: Seq<u8>) -> Seq<u8> {
    encode_state(compress_blocks(init_state(), pad(m)))
}

fn round1_exec(st: (u32, u32, u32, u32), x: &[u32; 16]) -> (r: (u32, u32, u32, u32))
    ensures
        ({
            let o = round1(Md4State { a: st.0, b: st.1, c: st.2, d: st.3 }, x@);
            r == (o.a, o.b, o.c, o.d)
        }),
{
    reveal(round1);
    let (mut a, mut b, mut c, mut d) = st;
    a = ff_exec(a, b, c, d, x[0], 3);
    d = ff_exec(d, a, b, c, x[1], 7);
    c = ff_exec(c, d, a, b, x[2], 11);
    b = ff_exec(b, c, d, a, x[3], 19);
    a = ff_exec(a, b, c, d, x[4], 3);
    d = ff_exec(d, a, b, c, x[5], 7);
    c = ff_exec(c, d, a, b, x[6], 11);
    b = ff_exec(b, c, d, a, x[7], 19);
    a = ff_exec(a, b, c, d, x[8], 3);
    d = ff_exec(d, a, b, c, x[9], 7);
    c = ff_exec(c, d, a, b, x[10], 11);
    b = ff_exec(b, c, d, a, x[11], 19);
    a = ff_exec(a, b, c, d, x[12], 3);
    d = ff_exec(d, a, b, c, x[13], 7);
    c = ff_exec(c, d, a, b, x[14], 11);
    b = ff_exec(b, c, d, a, x[15], 19);
    (a, b, c, d)
}

fn round2_exec(st: (u32, u32, u32, u32), x: &[u32; 16]) -> (r: (u32, u32, u32, u32))
    ensures
        ({
            let o = round2(Md4State { a: st.0, b: st.1, c: st.2, d: st.3 }, x@);
            r == (o.a, o.b, o.c, o.d)
        }),
{
    reveal(round2);
    let (mut a, mut b, mut c, mut d) = st;
    a = gg_exec(a, b, c, d, x[0], 3);
    d = gg_exec(d, a, b, c, x[4], 5);
    c = gg_exec(c, d, a, b, x[8], 9);
    b = gg_exec(b, c, d, a, x[12], 13);
    a = gg_exec(a, b, c, d, x[1], 3);
    d = gg_exec(d, a, b, c, x[5], 5);
    c = gg_exec(c, d, a, b, x[9], 9);
    b = gg_exec(b, c, d, a, x[13], 13);
    a = gg_exec(a, b, c, d, x[2], 3);
    d = gg_exec(d, a, b, c, x[6], 5);
    c = gg_exec(c, d, a, b, x[10], 9);
    b = gg_exec(b, c, d, a, x[14], 13);
    a = gg_exec(a, b, c, d, x[3], 3);
    d = gg_exec(d, a, b, c, x[7], 5);
    c = gg_exec(c, d, a, b, x[11], 9);
    b = gg_exec(b, c, d, a, x[15], 13);
    (a, b, c, d)
}

fn round3_exec(st: (u32, u32, u32, u32), x: &[u32; 16]) -> (r: (u32, u32, u32, u32))
    ensures
        ({
            let o = round3(Md4State { a: st.0, b: st.1, c: st.2, d: st.3 }, x@);
            r == (o.a, o.b, o.c, o.d)
        }),
{
    reveal(round3);
    let (mut a, mut b, mut c, mut d) = st;
    a = hh_exec(a, b, c, d, x[0], 3);
    d = hh_exec(d, a, b, c, x[8], 9);
    c = hh_exec(c, d, a, b, x[4], 11);
    b = hh_exec(b, c, d, a, x[12], 15);
    a = hh_exec(a, b, c, d, x[2], 3);
    d = hh_exec(d, a, b, c, x[10], 9);
    c = hh_exec(c, d, a, b, x[6], 11);
    b = hh_exec(b, c, d, a, x[14], 15);
    a = hh_exec(a, b, c, d, x[1], 3);
    d = hh_exec(d, a, b, c, x[9], 9);
    c = hh_exec(c, d, a, b, x[5], 11);
    b = hh_exec(b, c, d, a, x[13], 15);
    a = hh_exec(a, b, c, d, x[3], 3);
    d = hh_exec(d, a, b, c, x[11], 9);
    c = hh_exec(c, d, a, b, x[7], 11);
    b = hh_exec(b, c, d, a, x[15], 15);
    (a, b, c, d)
}

fn process_block(state: &mut [u32; 4], block: &[u8])
    requires
        block@.len() == 64,
    ensures
        ({
            let st = Md4State { a: old(state)@[0], b: old(state)@[1], c: old(state)@[2], d: old(state)@[3] };
            let r = compress(st, block@);
            final(state)@ == seq![r.a, r.b, r.c, r.d]
        }),
{
    reveal(compress);
    let mut x: [u32; 16] = [0u32; 16];
    let mut i: usize = 0;
    while i < 16
        invariant
            i <= 16,
            block@.len() == 64,
            forall|j: int| 0 <= j < i ==> x@[j] == le32(block@, 4 * j),
        decreases 16 - i,
    {
        x[i] = get_u32_le(block, 4 * i);
        i += 1;
    }
    assert(x@ =~= block_words(block@));
    let aa = state[0];
    let bb = state[1];
    let cc = state[2];
    let dd = state[3];
    let r1 = round1_exec((aa, bb, cc, dd), &x);
    let r2 = round2_exec(r1, &x);
    let (a, b, c, d) = round3_exec(r2, &x);
    state[0] = a.wrapping_add(aa);
    state[1] = b.wrapping_add(bb);
    state[2] = c.wrapping_add(cc);
    state[3] = d.wrapping_add(dd);
    assert(state@ =~= seq![wadd(a, aa), wadd(b, bb), wadd(c, cc), wadd(d, dd)]);
}



/// Run the compression function over `data[0..len]`, a whole number of blocks.
fn compress_prefix(state: &mut [u32; 4], data: &[u8], len: usize)
    requires
        len <= data@.len(),
        len % 64 == 0,
    ensures
        state_of(*final(state)) == compress_blocks(state_of(*old(state)), data@.subrange(0, len as int)),
{
    let ghost st0 = state_of(*state);
    let mut off: usize = 0;
    while off < len
        invariant
            off <= len,
            len <= data@.len(),
            off % 64 == 0,
            len % 64 == 0,
            compress_blocks(st0, data@.subrange(0, len as int))
                == compress_blocks(state_of(*state), data@.subrange(off as int, len as int)),
        decreases len - off,
    {
        let blk = vstd::slice::slice_subrange(data, off, off + 64);
        let ghost before = state_of(*state);
        process_block(state, blk);
        proof {
            let rest = data@.subrange(off as int, len as int);
            assert(rest.subrange(0, 64) =~= blk@);
            assert(rest.subrange(64, rest.len() as int) =~= data@.subrange(off + 64, len as int));
            assert(state_of(*state) =~= compress(before, blk@));
        }
        off += 64;
    }
    assert(data@.subrange(len as int, len as int) =~= Seq::<u8>::empty());
}

proof fn lemma_pad_split(m: Seq<u8>, done: int, tail: Seq<u8>, padded: Seq<u8>, bits: u64)
    requires
        0 <= done,
        done % 64 == 0,
        m.len() == done + tail.len(),
        m.subrange(done, m.len() as int) == tail,
        tail.len() < 64,
        bits == bit_len(m.len()),
        padded == tail + seq![0x80u8] + zeros(((119 - tail.len()) % 64) as nat) + u64_le(bits),
    ensures
        pad(m) == m.subrange(0, done) + padded,
{
    assert(m.len() % 64 == tail.len() % 64);
    assert(m.subrange(0, done) + tail =~= m);
    assert(pad(m) =~= m.subrange(0, done) + padded);
}

proof fn lemma_bit_len(len: nat, total: u64, bits: u64)
    requires
        total == if len > u64::MAX { u64::MAX as int } else { len as int },
        bits == if total > u64::MAX / 8 { u64::MAX as int } else { total * 8 },
    ensures
        bits == bit_len(len),
{
}

/// Compressing a prefix made of whole blocks, then the rest, is compressing the whole.
pub proof fn lemma_compress_blocks_concat(st: Md4State, a: Seq<u8>, b: Seq<u8>)
    requires
        a.len() % 64 == 0,
    ensures
        compress_blocks(st, a + b) == compress_blocks(compress_blocks(st, a), b),
    decreases a.len(),
{
    if a.len() >= 64 {
        assert((a + b).subrange(0, 64) =~= a.subrange(0, 64));
        assert((a + b).subrange(64, (a + b).len() as int) =~= a.subrange(64, a.len() as int) + b);
        lemma_compress_blocks_concat(compress(st, a.subrange(0, 64)), a.subrange(64, a.len() as int), b);
    } else {
        assert(a.len() == 0);
        assert(a + b =~= b);
    }
}

pub open spec fn state_of(s: [u32; 4]) -> Md4State {
    Md4State { a: s@[0], b: s@[1], c: s@[2], d: s@[3] }
}

/// Streaming MD4 hasher.
pub struct Md4 {
    state: [u32; 4],
    buffer: Vec<u8>,
    total_len: u64,
    absorbed: Ghost<Seq<u8>>,
}

impl Md4 {
    /// Every byte handed to `update` so far, in order.
    pub closed spec fn message(&self) -> Seq<u8> {
        self.absorbed@
    }

    pub closed spec fn wf(&self) -> bool {
        let m = self.absorbed@;
        let done = (m.len() - self.buffer@.len()) as int;
        &&& self.buffer@.len() < 64
        &&& self.buffer@.len() <= m.len()
        &&& done % 64 == 0
        &&& m.subrange(done, m.len() as int) == self.buffer@
        &&& state_of(self.state) == compress_blocks(init_state(), m.subrange(0, done))
        &&& self.total_len == if m.len() > u64::MAX { u64::MAX as int } else { m.len() as int }
    }

    pub fn new() -> (r: Self)
        ensures
            r.wf(),
            r.message() == Seq::<u8>::empty(),
    {
        let r = Md4 {
            state: [0x6745_2301, 0xEFCD_AB89, 0x98BA_DCFE, 0x1032_5476],
            buffer: Vec::new(),
            total_len: 0,
            absorbed: Ghost(Seq::empty()),
        };
        assert(r.absorbed@.subrange(0, 0) =~= Seq::<u8>::empty());
        assert(r.absorbed@.subrange(0, 0) =~= r.buffer@);
        r
    }

    pub fn update(&mut self, input: &[u8])
        requires
            old(self).wf(),
        ensures
            final(self).wf(),
            final(self).message() == old(self).message() + input@,
    {
        let ghost m0 = self.absorbed@;
        let ghost done0 = (m0.len() - self.buffer@.len()) as int;
        let ghost m1 = m0 + input@;
        let len64: u64 = input.len() as u64;
        self.total_len = self.total_len.saturating_add(len64);
        push_bytes(&mut self.buffer, input);
        self.absorbed = Ghost(m1);
        assert(m1.subrange(done0, m1.len() as int) =~= self.buffer@) by {
            assert(m0.subrange(done0, m0.len() as int) == old(self).buffer@);
        }
        assert(m1.subrange(0, done0) =~= m0.subrange(0, done0));
        let full: usize = self.buffer.len() - self.buffer.len() % 64;
        compress_prefix(&mut self.state, self.buffer.as_slice(), full);
        proof {
            let p = m1.subrange(0, done0);
            let q = self.buffer@.subrange(0, full as int);
            assert(m1.subrange(0, done0 + full) =~= p + q);
            lemma_compress_blocks_concat(init_state(), p, q);
        }
        let rest = self.buffer.split_off(full);
        self.buffer = rest;
        proof {
            let done1 = done0 + full;
            assert(m1.subrange(done1, m1.len() as int) =~= self.buffer@);
        }
    }

    pub fn finalize(self) -> (out: [u8; 16])
        requires
            self.wf(),
        ensures
            out@ == md4(self.message()),
    {
        let ghost m = self.absorbed@;
        let ghost done = (m.len() - self.buffer@.len()) as int;
        let mut state = self.state;
        let mut buf = self.buffer;
        let bits: u64 = if self.total_len > u64::MAX / 8 { u64::MAX } else { self.total_len * 8 };
        let blen: usize = buf.len();
        buf.push(0x80u8);
        let nz: usize = (119 - blen) % 64;
        let mut k: usize = 0;
        while k < nz
            invariant
                k <= nz,
                buf@.len() == blen + 1 + k,
                buf@ == self.buffer@ + seq![0x80u8] + zeros(k as nat),
            decreases nz - k,
        {
            buf.push(0u8);
            k += 1;
            assert(buf@ =~= self.buffer@ + seq![0x80u8] + zeros(k as nat));
        }
        push_u64_le(&mut buf, bits);
        proof {
            lemma_bit_len(m.len(), self.total_len, bits);
        }
        proof {
            lemma_pad_split(m, done, self.buffer@, buf@, bits);
            lemma_compress_blocks_concat(init_state(), m.subrange(0, done), buf@);
        }
        let total: usize = buf.len();
        compress_prefix(&mut state, buf.as_slice(), total);
        assert(buf@.subrange(0, total as int) =~= buf@);
        encode_state_bytes(state)
    }
}

fn encode_state_bytes(state: [u32; 4]) -> (out: [u8; 16])
    ensures
        out@ == encode_state(state_of(state)),
{
    let mut v: Vec<u8> = Vec::new();
    push_u32_le(&mut v, state[0]);
    push_u32_le(&mut v, state[1]);
    push_u32_le(&mut v, state[2]);
    push_u32_le(&mut v, state[3]);
    let mut out = [0u8; 16];
    let mut i: usize = 0;
    while i < 16
        invariant
            i <= 16,
            v@ == encode_state(state_of(state)),
            v@.len() == 16,
            forall|j: int| 0 <= j < i ==> out@[j] == v@[j],
        decreases 16 - i,
    {
        out[i] = v[i];
        i += 1;
    }
    assert(out@ =~= v@);
    out
}

impl Default for Md4 {
    fn default() -> (r: Self)
        ensures
            r.wf(),
            r.message() == Seq::<u8>::empty(),
    {
        Self::new()
    }
}

/// One-shot MD4 digest: little-endian A, B, C, D words.
pub fn digest(input: &[u8]) -> (out: [u8; 16])
    ensures
        out@ == md4(input@),
{
    let mut h = Md4::new();
    h.update(input);
    assert(Seq::<u8>::empty() + input@ =~= input@);
    h.finalize()
}

} // verus!
