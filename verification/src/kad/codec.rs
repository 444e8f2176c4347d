//! Little-endian integer layouts and the eMule/iMule 128-bit encoding, as
//! mathematical byte sequences together with the executable readers/writers.

use vstd::prelude::*;
use crate::kad::id::{KadId, crypt_order};

verus! {

pub open spec fn le16(b: Seq<u8>, i: int) -> int {
    b[i] as int + 256 * (b[i + 1] as int)
}

pub open spec fn le32(b: Seq<u8>, i: int) -> int {
    le16(b, i) + 65536 * le16(b, i + 2)
}

pub open spec fn le64(b: Seq<u8>, i: int) -> int {
    le32(b, i) + 4294967296 * le32(b, i + 4)
}

pub open spec fn u16_le(x: u16) -> Seq<u8> {
    seq![(x % 256) as u8, (x / 256) as u8]
}

pub open spec fn u32_le(x: u32) -> Seq<u8> {
    u16_le((x % 65536) as u16) + u16_le((x / 65536) as u16)
}

pub open spec fn u64_le(x: u64) -> Seq<u8> {
    u32_le((x % 4294967296) as u32) + u32_le((x / 4294967296) as u32)
}

/// The 16 wire bytes of an identifier.
pub open spec fn id_wire(id: KadId) -> Seq<u8> {
    crypt_order(id.0@)
}

/// The identifier whose wire bytes start at `i`.
pub open spec fn id_at(b: Seq<u8>, i: int) -> Seq<u8> {
    crypt_order(b.subrange(i, i + 16))
}

pub proof fn lemma_u16_le_roundtrip(x: u16)
    ensures
        u16_le(x).len() == 2,
        le16(u16_le(x), 0) == x,
{
}

pub proof fn lemma_u32_le_roundtrip(x: u32)
    ensures
        u32_le(x).len() == 4,
        le32(u32_le(x), 0) == x,
{
    let lo = (x % 65536) as u16;
    let hi = (x / 65536) as u16;
    assert(u32_le(x) =~= seq![(lo % 256) as u8, (lo / 256) as u8, (hi % 256) as u8, (hi / 256) as u8]);
}

pub proof fn lemma_u64_le_roundtrip(x: u64)
    ensures
        u64_le(x).len() == 8,
        le64(u64_le(x), 0) == x,
{
    let lo = (x % 4294967296) as u32;
    let hi = (x / 4294967296) as u32;
    lemma_u32_le_roundtrip(lo);
    lemma_u32_le_roundtrip(hi);
    let s = u64_le(x);
    assert(s.subrange(0, 4) =~= u32_le(lo));
    assert(s.subrange(4, 8) =~= u32_le(hi));
    assert(le32(s, 0) == le32(u32_le(lo), 0));
    assert(le32(s, 4) == le32(u32_le(hi), 0));
}

/// Values read at an offset only depend on the bytes there.
pub proof fn lemma_le32_shift(a: Seq<u8>, b: Seq<u8>, i: int, j: int)
    requires
        0 <= i,
        i + 4 <= a.len(),
        0 <= j,
        j + 4 <= b.len(),
        a.subrange(i, i + 4) == b.subrange(j, j + 4),
    ensures
        le32(a, i) == le32(b, j),
{
    assert(a[i] == a.subrange(i, i + 4)[0]);
    assert(a[i + 1] == a.subrange(i, i + 4)[1]);
    assert(a[i + 2] == a.subrange(i, i + 4)[2]);
    assert(a[i + 3] == a.subrange(i, i + 4)[3]);
    assert(b[j] == b.subrange(j, j + 4)[0]);
    assert(b[j + 1] == b.subrange(j, j + 4)[1]);
    assert(b[j + 2] == b.subrange(j, j + 4)[2]);
    assert(b[j + 3] == b.subrange(j, j + 4)[3]);
}

/// An identifier written at offset `a.len()` reads back as itself.
pub proof fn lemma_id_at_concat(a: Seq<u8>, id: KadId, c: Seq<u8>)
    ensures
        id_at(a + id_wire(id) + c, a.len() as int) == id.0@,
{
    let b = a + id_wire(id) + c;
    assert(b.subrange(a.len() as int, a.len() as int + 16) =~= id_wire(id));
    crate::kad::id::lemma_crypt_order_involutive(id.0@);
}

pub proof fn lemma_le16_concat(a: Seq<u8>, x: u16, c: Seq<u8>)
    ensures
        le16(a + u16_le(x) + c, a.len() as int) == x,
{
    let b = a + u16_le(x) + c;
    assert(b[a.len() as int] == u16_le(x)[0]);
    assert(b[a.len() as int + 1] == u16_le(x)[1]);
}

pub proof fn lemma_le32_concat(a: Seq<u8>, x: u32, c: Seq<u8>)
    ensures
        le32(a + u32_le(x) + c, a.len() as int) == x,
{
    let b = a + u32_le(x) + c;
    lemma_u32_le_roundtrip(x);
    assert(b.subrange(a.len() as int, a.len() as int + 4) =~= u32_le(x));
    assert(u32_le(x).subrange(0, 4) =~= u32_le(x));
    lemma_le32_shift(b, u32_le(x), a.len() as int, 0);
}

pub proof fn lemma_le64_concat(a: Seq<u8>, x: u64, c: Seq<u8>)
    ensures
        le64(a + u64_le(x) + c, a.len() as int) == x,
{
    let b = a + u64_le(x) + c;
    lemma_u64_le_roundtrip(x);
    let s = u64_le(x);
    assert(b.subrange(a.len() as int, a.len() as int + 4) =~= s.subrange(0, 4));
    assert(b.subrange(a.len() as int + 4, a.len() as int + 8) =~= s.subrange(4, 8));
    lemma_le32_shift(b, s, a.len() as int, 0);
    lemma_le32_shift(b, s, a.len() as int + 4, 4);
}

pub fn push_u8(out: &mut Vec<u8>, x: u8)
    ensures
        final(out)@ == old(out)@.push(x),
{
    out.push(x);
}

pub fn push_u16_le(out: &mut Vec<u8>, x: u16)
    ensures
        final(out)@ == old(out)@ + u16_le(x),
{
    out.push((x % 256) as u8);
    out.push((x / 256) as u8);
    assert(out@ =~= old(out)@ + u16_le(x));
}

pub fn push_u32_le(out: &mut Vec<u8>, x: u32)
    ensures
        final(out)@ == old(out)@ + u32_le(x),
{
    push_u16_le(out, (x % 65536) as u16);
    push_u16_le(out, (x / 65536) as u16);
    assert(out@ =~= old(out)@ + u32_le(x));
}

pub fn push_u64_le(out: &mut Vec<u8>, x: u64)
    ensures
        final(out)@ == old(out)@ + u64_le(x),
{
    push_u32_le(out, (x % 4294967296) as u32);
    push_u32_le(out, (x / 4294967296) as u32);
    assert(out@ =~= old(out)@ + u64_le(x));
}

pub fn push_bytes(out: &mut Vec<u8>, s: &[u8])
    ensures
        final(out)@ == old(out)@ + s@,
{
    let mut i: usize = 0;
    while i < s.len()
        invariant
            i <= s@.len(),
            out@ == old(out)@ + s@.subrange(0, i as int),
        decreases s@.len() - i,
    {
        out.push(s[i]);
        i += 1;
        assert(out@ =~= old(out)@ + s@.subrange(0, i as int));
    }
    assert(s@.subrange(0, s@.len() as int) =~= s@);
}

pub fn push_kad_id(out: &mut Vec<u8>, id: &KadId)
    ensures
        final(out)@ == old(out)@ + id_wire(*id),
{
    let b = id.to_crypt_bytes();
    push_bytes(out, b.as_slice());
}

pub fn get_u16_le(b: &[u8], i: usize) -> (r: u16)
    requires
        i + 2 <= b@.len(),
    ensures
        r == le16(b@, i as int),
{
    let lo = b[i] as u16;
    let hi = b[i + 1] as u16;
    assert(hi * 256 <= 65280) by (nonlinear_arith)
        requires
            hi <= 255,
    ;
    lo + 256 * hi
}

pub fn get_u32_le(b: &[u8], i: usize) -> (r: u32)
    requires
        i + 4 <= b@.len(),
    ensures
        r == le32(b@, i as int),
{
    let _n = b.len();
    let lo = get_u16_le(b, i) as u32;
    let hi = get_u16_le(b, i + 2) as u32;
    assert(hi * 65536 <= 4294901760) by (nonlinear_arith)
        requires
            hi <= 65535,
    ;
    lo + 65536 * hi
}

pub fn get_u64_le(b: &[u8], i: usize) -> (r: u64)
    requires
        i + 8 <= b@.len(),
    ensures
        r == le64(b@, i as int),
{
    let _n = b.len();
    let lo = get_u32_le(b, i) as u64;
    let hi = get_u32_le(b, i + 4) as u64;
    assert(hi * 4294967296 <= 18446744069414584320) by (nonlinear_arith)
        requires
            hi <= 4294967295,
    ;
    lo + 4294967296 * hi
}

pub fn get_kad_id(b: &[u8], i: usize) -> (id: KadId)
    requires
        i + 16 <= b@.len(),
    ensures
        id.0@ == id_at(b@, i as int),
{
    let _n = b.len();
    let out: [u8; 16] = [
        b[i + 3], b[i + 2], b[i + 1], b[i],
        b[i + 7], b[i + 6], b[i + 5], b[i + 4],
        b[i + 11], b[i + 10], b[i + 9], b[i + 8],
        b[i + 15], b[i + 14], b[i + 13], b[i + 12],
    ];
    assert(out@ =~= id_at(b@, i as int));
    KadId(out)
}

} // verus!
