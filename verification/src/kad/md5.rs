//! MD5 (RFC 1321), one-shot; keys the RC4 obfuscation of KAD datagrams.

use vstd::prelude::*;
use crate::kad::codec::{le32, u32_le, u64_le, push_u32_le, push_u64_le, get_u32_le, push_bytes};
use crate::kad::md4::{rotl, wadd, zeros};

verus! {

/// The working words (a, b, c, d).
pub struct Md5Words {
    pub a: u32,
    pub b: u32,
    pub c: u32,
    pub d: u32,
}

/// T[i] = floor(2^32 * |sin(i + 1)|).
#[verifier::opaque]
pub open spec fn md5_t() -> Seq<u32> {
    seq![
        0xd76aa478u32, 0xe8c7b756, 0x242070db, 0xc1bdceee,
        0xf57c0faf, 0x4787c62a, 0xa8304613, 0xfd469501,
        0x698098d8, 0x8b44f7af, 0xffff5bb1, 0x895cd7be,
        0x6b901122, 0xfd987193, 0xa679438e, 0x49b40821,
        0xf61e2562, 0xc040b340, 0x265e5a51, 0xe9b6c7aa,
        0xd62f105d, 0x02441453, 0xd8a1e681, 0xe7d3fbc8,
        0x21e1cde6, 0xc33707d6, 0xf4d50d87, 0x455a14ed,
        0xa9e3e905, 0xfcefa3f8, 0x676f02d9, 0x8d2a4c8a,
        0xfffa3942, 0x8771f681, 0x6d9d6122, 0xfde5380c,
        0xa4beea44, 0x4bdecfa9, 0xf6bb4b60, 0xbebfbc70,
        0x289b7ec6, 0xeaa127fa, 0xd4ef3085, 0x04881d05,
        0xd9d4d039, 0xe6db99e5, 0x1fa27cf8, 0xc4ac5665,
        0xf4292244, 0x432aff97, 0xab9423a7, 0xfc93a039,
        0x655b59c3, 0x8f0ccc92, 0xffeff47d, 0x85845dd1,
        0x6fa87e4f, 0xfe2ce6e0, 0xa3014314, 0x4e0811a1,
        0xf7537e82, 0xbd3af235, 0x2ad7d2bb, 0xeb86d391
    ]
}

/// Per-step rotation amounts.
pub open spec fn md5_shift(i: int) -> u32 {
    let k = i % 4;
    if i < 16 {
        if k == 0 { 7 } else if k == 1 { 12 } else if k == 2 { 17 } else { 22 }
    } else if i < 32 {
        if k == 0 { 5 } else if k == 1 { 9 } else if k == 2 { 14 } else { 20 }
    } else if i < 48 {
        if k == 0 { 4 } else if k == 1 { 11 } else if k == 2 { 16 } else { 23 }
    } else {
        if k == 0 { 6 } else if k == 1 { 10 } else if k == 2 { 15 } else { 21 }
    }
}

/// The boolean function of step `i`.
pub open spec fn md5_fun(i: int, b: u32, c: u32, d: u32) -> u32 {
    if i < 16 {
        (b & c) | (!b & d)
    } else if i < 32 {
        (d & b) | (!d & c)
    } else if i < 48 {
        b ^ c ^ d
    } else {
        c ^ (b | !d)
    }
}

/// The message word used by step `i`.
pub open spec fn md5_index(i: int) -> int {
    if i < 16 {
        i
    } else if i < 32 {
        (5 * i + 1) % 16
    } else if i < 48 {
        (3 * i + 5) % 16
    } else {
        (7 * i) % 16
    }
}

#[verifier::opaque]
pub open spec fn md5_step(w: Md5Words, m: Seq<u32>, i: int) -> Md5Words {
    let x = wadd(wadd(wadd(w.a, md5_fun(i, w.b, w.c, w.d)), md5_t()[i]), m[md5_index(i)]);
    Md5Words { a: w.d, b: wadd(w.b, rotl(x, md5_shift(i))), c: w.b, d: w.c }
}

/// The words after the first `n` steps over the block words `m`.
pub open spec fn md5_steps(w: Md5Words, m: Seq<u32>, n: nat) -> Md5Words
    decreases n,
{
    if n == 0 {
        w
    } else {
        md5_step(md5_steps(w, m, (n - 1) as nat), m, n - 1)
    }
}

pub open spec fn md5_block_words(blk: Seq<u8>) -> Seq<u32> {
    Seq::new(16, |i: int| le32(blk, 4 * i) as u32)
}

#[verifier::opaque]
pub open spec fn md5_compress(w: Md5Words, blk: Seq<u8>) -> Md5Words {
    let r = md5_steps(w, md5_block_words(blk), 64);
    Md5Words { a: wadd(w.a, r.a), b: wadd(w.b, r.b), c: wadd(w.c, r.c), d: wadd(w.d, r.d) }
}

pub open spec fn md5_blocks(w: Md5Words, m: Seq<u8>) -> Md5Words
    decreases m.len(),
{
    if m.len() < 64 {
        w
    } else {
        md5_blocks(md5_compress(w, m.subrange(0, 64)), m.subrange(64, m.len() as int))
    }
}

pub open spec fn md5_pad(m: Seq<u8>) -> Seq<u8> {
    m + seq![0x80u8] + zeros(((119 - (m.len() % 64)) % 64) as nat) + u64_le((m.len() * 8) as u64)
}

pub open spec fn md5_init() -> Md5Words {
    Md5Words { a: 0x6745_2301, b: 0xefcd_ab89, c: 0x98ba_dcfe, d: 0x1032_5476 }
}

/// The MD5 digest of a message: little-endian a, b, c, d.
pub open spec fn md5_spec(m: Seq<u8>) -> Seq<u8> {
    let w = md5_blocks(md5_init(), md5_pad(m));
    u32_le(w.a) + u32_le(w.b) + u32_le(w.c) + u32_le(w.d)
}

fn md5_shift_exec(i: usize) -> (r: u32)
    requires
        i < 64,
    ensures
        r == md5_shift(i as int),
        4 <= r < 24,
{
    let k = i % 4;
    if i < 16 {
        if k == 0 { 7 } else if k == 1 { 12 } else if k == 2 { 17 } else { 22 }
    } else if i < 32 {
        if k == 0 { 5 } else if k == 1 { 9 } else if k == 2 { 14 } else { 20 }
    } else if i < 48 {
        if k == 0 { 4 } else if k == 1 { 11 } else if k == 2 { 16 } else { 23 }
    } else {
        if k == 0 { 6 } else if k == 1 { 10 } else if k == 2 { 15 } else { 21 }
    }
}


fn md5_fun_exec(i: usize, b: u32, c: u32, d: u32) -> (r: u32)
    ensures
        r == md5_fun(i as int, b, c, d),
{
    if i < 16 {
        (b & c) | (!b & d)
    } else if i < 32 {
        (d & b) | (!d & c)
    } else if i < 48 {
        b ^ c ^ d
    } else {
        c ^ (b | !d)
    }
}

fn md5_index_exec(i: usize) -> (g: usize)
    requires
        i < 64,
    ensures
        g == md5_index(i as int),
        g < 16,
{
    if i < 16 {
        i
    } else if i < 32 {
        (5 * i + 1) % 16
    } else if i < 48 {
        (3 * i + 5) % 16
    } else {
        (7 * i) % 16
    }
}

fn wadd_exec(a: u32, b: u32) -> (r: u32)
    ensures
        r == wadd(a, b),
{
    a.wrapping_add(b)
}

fn md5_step_exec(w: (u32, u32, u32, u32), m: &[u32; 16], ti: u32, i: usize) -> (r: (u32, u32, u32, u32))
    requires
        i < 64,
        ti == md5_t()[i as int],
    ensures
        ({
            let o = md5_step(Md5Words { a: w.0, b: w.1, c: w.2, d: w.3 }, m@, i as int);
            r == (o.a, o.b, o.c, o.d)
        }),
{
    reveal(md5_step);
    let (a, b, c, d) = w;
    let f = md5_fun_exec(i, b, c, d);
    let g = md5_index_exec(i);
    let s = md5_shift_exec(i);
    let x = wadd_exec(wadd_exec(wadd_exec(a, f), ti), m[g]);
    let rot = (x << s) | (x >> (32 - s));
    assert(rot == rotl(x, s));
    (d, wadd_exec(b, rot), b, c)
}

fn md5_table() -> (t: [u32; 64])
    ensures
        t@ == md5_t(),
{
    reveal(md5_t);
    let t: [u32; 64] = [
        0xd76aa478, 0xe8c7b756, 0x242070db, 0xc1bdceee,
        0xf57c0faf, 0x4787c62a, 0xa8304613, 0xfd469501,
        0x698098d8, 0x8b44f7af, 0xffff5bb1, 0x895cd7be,
        0x6b901122, 0xfd987193, 0xa679438e, 0x49b40821,
        0xf61e2562, 0xc040b340, 0x265e5a51, 0xe9b6c7aa,
        0xd62f105d, 0x02441453, 0xd8a1e681, 0xe7d3fbc8,
        0x21e1cde6, 0xc33707d6, 0xf4d50d87, 0x455a14ed,
        0xa9e3e905, 0xfcefa3f8, 0x676f02d9, 0x8d2a4c8a,
        0xfffa3942, 0x8771f681, 0x6d9d6122, 0xfde5380c,
        0xa4beea44, 0x4bdecfa9, 0xf6bb4b60, 0xbebfbc70,
        0x289b7ec6, 0xeaa127fa, 0xd4ef3085, 0x04881d05,
        0xd9d4d039, 0xe6db99e5, 0x1fa27cf8, 0xc4ac5665,
        0xf4292244, 0x432aff97, 0xab9423a7, 0xfc93a039,
        0x655b59c3, 0x8f0ccc92, 0xffeff47d, 0x85845dd1,
        0x6fa87e4f, 0xfe2ce6e0, 0xa3014314, 0x4e0811a1,
        0xf7537e82, 0xbd3af235, 0x2ad7d2bb, 0xeb86d391,
    ];
    assert(t@ =~= md5_t());
    t
}

fn md5_compress_exec(w: (u32, u32, u32, u32), blk: &[u8], t: &[u32; 64]) -> (r: (u32, u32, u32, u32))
    requires
        blk@.len() == 64,
        t@ == md5_t(),
    ensures
        ({
            let o = md5_compress(Md5Words { a: w.0, b: w.1, c: w.2, d: w.3 }, blk@);
            r == (o.a, o.b, o.c, o.d)
        }),
{
    reveal(md5_compress);
    let ghost w0 = Md5Words { a: w.0, b: w.1, c: w.2, d: w.3 };
    let mut m: [u32; 16] = [0u32; 16];
    let mut i: usize = 0;
    while i < 16
        invariant
            i <= 16,
            blk@.len() == 64,
            forall|j: int| 0 <= j < i ==> m@[j] == le32(blk@, 4 * j),
        decreases 16 - i,
    {
        m[i] = get_u32_le(blk, 4 * i);
        i += 1;
    }
    assert(m@ =~= md5_block_words(blk@));
    let (mut a, mut b, mut c, mut d) = w;
    let mut i: usize = 0;
    while i < 64
        invariant
            i <= 64,
            t@ == md5_t(),
            m@ == md5_block_words(blk@),
            md5_steps(w0, m@, i as nat) == (Md5Words { a, b, c, d }),
        decreases 64 - i,
    {
        let (a2, b2, c2, d2) = md5_step_exec((a, b, c, d), &m, t[i], i);
        a = a2;
        b = b2;
        c = c2;
        d = d2;
        i += 1;
    }
    (w.0.wrapping_add(a), w.1.wrapping_add(b), w.2.wrapping_add(c), w.3.wrapping_add(d))
}

proof fn lemma_md5_blocks_concat(w: Md5Words, a: Seq<u8>, b: Seq<u8>)
    requires
        a.len() % 64 == 0,
    ensures
        md5_blocks(w, a + b) == md5_blocks(md5_blocks(w, a), b),
    decreases a.len(),
{
    if a.len() >= 64 {
        assert((a + b).subrange(0, 64) =~= a.subrange(0, 64));
        assert((a + b).subrange(64, (a + b).len() as int) =~= a.subrange(64, a.len() as int) + b);
        lemma_md5_blocks_concat(md5_compress(w, a.subrange(0, 64)), a.subrange(64, a.len() as int), b);
    } else {
        assert(a + b =~= b);
    }
}

proof fn lemma_pad_len(len: int)
    requires
        len >= 0,
    ensures
        (len + 1 + (119 - len % 64) % 64 + 8) % 64 == 0,
{
    let r = len % 64;
    let q = len / 64;
    assert(len == 64 * q + r);
    if r <= 55 {
        assert((119 - r) % 64 == 55 - r);
        assert(len + 1 + (55 - r) + 8 == 64 * (q + 1));
    } else {
        assert((119 - r) % 64 == 119 - r);
        assert(len + 1 + (119 - r) + 8 == 64 * (q + 2));
    }
}

fn md5_pad_exec(input: &[u8]) -> (msg: Vec<u8>)
    requires
        input@.len() * 8 <= u64::MAX,
    ensures
        msg@ == md5_pad(input@),
        msg@.len() % 64 == 0,
{
    let mut msg: Vec<u8> = Vec::new();
    push_bytes(&mut msg, input);
    let len: usize = input.len();
    let len64: u64 = len as u64;
    let bits: u64 = len64 * 8;
    msg.push(0x80u8);
    let nz: usize = (119 - len % 64) % 64;
    let mut k: usize = 0;
    while k < nz
        invariant
            k <= nz,
            msg@ == input@ + seq![0x80u8] + zeros(k as nat),
        decreases nz - k,
    {
        msg.push(0u8);
        k += 1;
        assert(msg@ =~= input@ + seq![0x80u8] + zeros(k as nat));
    }
    push_u64_le(&mut msg, bits);
    assert(msg@ =~= md5_pad(input@));
    proof {
        lemma_pad_len(len as int);
    }
    msg
}

fn md5_blocks_exec(msg: &Vec<u8>, t: &[u32; 64]) -> (w: (u32, u32, u32, u32))
    requires
        msg@.len() % 64 == 0,
        t@ == md5_t(),
    ensures
        (Md5Words { a: w.0, b: w.1, c: w.2, d: w.3 }) == md5_blocks(md5_init(), msg@),
{
    let total: usize = msg.len();
    let mut w: (u32, u32, u32, u32) = (0x6745_2301, 0xefcd_ab89, 0x98ba_dcfe, 0x1032_5476);
    let mut off: usize = 0;
    assert(msg@.subrange(0, total as int) =~= msg@);
    while off < total
        invariant
            off <= total,
            total == msg@.len(),
            total % 64 == 0,
            off % 64 == 0,
            t@ == md5_t(),
            md5_blocks(Md5Words { a: w.0, b: w.1, c: w.2, d: w.3 }, msg@.subrange(off as int, total as int))
                == md5_blocks(md5_init(), msg@),
        decreases total - off,
    {
        let blk = vstd::slice::slice_subrange(msg.as_slice(), off, off + 64);
        w = md5_compress_exec(w, blk, t);
        proof {
            let rest = msg@.subrange(off as int, total as int);
            assert(rest.subrange(0, 64) =~= blk@);
            assert(rest.subrange(64, rest.len() as int) =~= msg@.subrange(off + 64, total as int));
        }
        off += 64;
    }
    assert(msg@.subrange(total as int, total as int) =~= Seq::<u8>::empty());
    w
}

fn words_le(w: (u32, u32, u32, u32)) -> (out: [u8; 16])
    ensures
        out@ == u32_le(w.0) + u32_le(w.1) + u32_le(w.2) + u32_le(w.3),
{
    let mut v: Vec<u8> = Vec::new();
    push_u32_le(&mut v, w.0);
    push_u32_le(&mut v, w.1);
    push_u32_le(&mut v, w.2);
    push_u32_le(&mut v, w.3);
    let mut out = [0u8; 16];
    let mut i: usize = 0;
    while i < 16
        invariant
            i <= 16,
            v@.len() == 16,
            forall|j: int| 0 <= j < i ==> out@[j] == v@[j],
        decreases 16 - i,
    {
        out[i] = v[i];
        i += 1;
    }
    assert(out@ =~= v@);
    out
}

/// One-shot MD5 digest.
pub fn md5(input: &[u8]) -> (out: [u8; 16])
    requires
        input@.len() * 8 <= u64::MAX,
    ensures
        out@ == md5_spec(input@),
{
    let t = md5_table();
    let msg = md5_pad_exec(input);
    let w = md5_blocks_exec(&msg, &t);
    words_le(w)
}

} // verus!
