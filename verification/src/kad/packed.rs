//! zlib (RFC 1950) around raw deflate (RFC 1951): header checks, stored,
//! fixed-Huffman and dynamic-Huffman blocks, and the Adler-32 trailer.

use vstd::prelude::*;
use vstd::arithmetic::power2::{pow2, lemma_pow2_pos, lemma_pow2_adds, lemma_pow2_unfold, lemma2_to64};

verus! {

/// Why a zlib/deflate stream could not be inflated.
#[derive(Debug, Clone, PartialEq, Eq, Structural)]
pub enum InflateError {
    /// Fewer than 6 bytes (2-byte header + 4-byte Adler-32).
    TooSmall,
    /// CM field is not 8 (deflate).
    UnsupportedMethod,
    /// (CMF*256 + FLG) is not a multiple of 31.
    BadHeaderCheck,
    /// A preset dictionary was requested (FDICT).
    PresetDictionary,
    /// The input ended in the middle of the stream.
    UnexpectedEof,
    /// Block type 3.
    InvalidBlockType,
    /// Stored block LEN and NLEN are not complements.
    StoredLengthMismatch,
    /// The output would exceed the caller's limit.
    OutputLimit,
    /// A Huffman code, symbol or back-reference is malformed.
    InvalidCode,
    /// The Adler-32 trailer does not match the output.
    ChecksumMismatch,
}

impl InflateError {
    pub open spec fn message_spec(&self) -> Seq<char> {
        match *self {
            InflateError::TooSmall => "zlib stream too small"@,
            InflateError::UnsupportedMethod => "unsupported zlib compression method, expected 8 (deflate)"@,
            InflateError::BadHeaderCheck => "bad zlib header check bits"@,
            InflateError::PresetDictionary => "zlib preset dictionary (FDICT) is not supported"@,
            InflateError::UnexpectedEof => "unexpected EOF"@,
            InflateError::InvalidBlockType => "invalid deflate block type"@,
            InflateError::StoredLengthMismatch => "stored block LEN/NLEN mismatch"@,
            InflateError::OutputLimit => "inflate output exceeds max_out"@,
            InflateError::InvalidCode => "invalid huffman code or symbol"@,
            InflateError::ChecksumMismatch => "adler32 mismatch"@,
        }
    }

    /// The error's message.
    pub fn to_string(&self) -> (s: String)
        ensures
            s@ == self.message_spec(),
    {
        match self {
            InflateError::TooSmall => String::from_str("zlib stream too small"),
            InflateError::UnsupportedMethod => String::from_str("unsupported zlib compression method, expected 8 (deflate)"),
            InflateError::BadHeaderCheck => String::from_str("bad zlib header check bits"),
            InflateError::PresetDictionary => String::from_str("zlib preset dictionary (FDICT) is not supported"),
            InflateError::UnexpectedEof => String::from_str("unexpected EOF"),
            InflateError::InvalidBlockType => String::from_str("invalid deflate block type"),
            InflateError::StoredLengthMismatch => String::from_str("stored block LEN/NLEN mismatch"),
            InflateError::OutputLimit => String::from_str("inflate output exceeds max_out"),
            InflateError::InvalidCode => String::from_str("invalid huffman code or symbol"),
            InflateError::ChecksumMismatch => String::from_str("adler32 mismatch"),
        }
    }
}

// ---- Adler-32 ----

pub open spec fn adler_a(d: Seq<u8>) -> int
    decreases d.len(),
{
    if d.len() == 0 {
        1
    } else {
        (adler_a(d.drop_last()) + d.last()) % 65521
    }
}

pub open spec fn adler_b(d: Seq<u8>) -> int
    decreases d.len(),
{
    if d.len() == 0 {
        0
    } else {
        (adler_b(d.drop_last()) + adler_a(d)) % 65521
    }
}

/// Adler-32 of a byte sequence: `B * 65536 + A` with the two running sums mod 65521.
pub open spec fn adler32_spec(d: Seq<u8>) -> int {
    adler_b(d) * 65536 + adler_a(d)
}

pub fn adler32(data: &[u8]) -> (r: u32)
    ensures
        r == adler32_spec(data@),
{
    let mut s1: u32 = 1;
    let mut s2: u32 = 0;
    let mut i: usize = 0;
    while i < data.len()
        invariant
            i <= data@.len(),
            s1 == adler_a(data@.subrange(0, i as int)),
            s2 == adler_b(data@.subrange(0, i as int)),
            s1 < 65521,
            s2 < 65521,
        decreases data@.len() - i,
    {
        assert(data@.subrange(0, i + 1).drop_last() =~= data@.subrange(0, i as int));
        s1 = (s1 + data[i] as u32) % 65521;
        s2 = (s2 + s1) % 65521;
        i += 1;
    }
    assert(data@.subrange(0, data@.len() as int) =~= data@);
    s2 * 65536 + s1
}

// ---- bit reader ----

pub fn pow2_u64(n: u32) -> (r: u64)
    requires
        n <= 32,
    ensures
        r == pow2(n as nat),
        r > 0,
{
    let mut r: u64 = 1;
    let mut k: u32 = 0;
    proof {
        lemma2_to64();
    }
    while k < n
        invariant
            k <= n,
            n <= 32,
            r == pow2(k as nat),
            r <= 0x1_0000_0000,
        decreases n - k,
    {
        proof {
            lemma_pow2_unfold((k + 1) as nat);
            lemma2_to64();
            if k + 1 < 32 {
                vstd::arithmetic::power2::lemma_pow2_strictly_increases((k + 1) as nat, 32);
            }
        }
        r = r * 2;
        k += 1;
    }
    proof {
        lemma_pow2_pos(n as nat);
    }
    r
}

/// Bit `i` of a byte string, least significant bit of each byte first.
pub open spec fn bit_of(d: Seq<u8>, i: int) -> nat {
    ((d[i / 8] >> ((i % 8) as u8)) & 1u8) as nat
}

/// The number made of the `n` bits from bit `start` on, the first one
/// least significant.
pub open spec fn bits_val(d: Seq<u8>, start: int, n: nat) -> nat
    decreases n,
{
    if n == 0 { 0 } else { bits_val(d, start, (n - 1) as nat) + bit_of(d, start + n - 1) * pow2((n - 1) as nat) }
}

proof fn lemma_bit_le_1(d: Seq<u8>, i: int)
    requires
        0 <= i / 8 < d.len(),
    ensures
        bit_of(d, i) <= 1,
{
    let x = d[i / 8];
    let k = (i % 8) as u8;
    assert((x >> k) & 1u8 <= 1u8) by (bit_vector);
}

pub proof fn lemma_bits_val_bound(d: Seq<u8>, start: int, n: nat)
    requires
        0 <= start,
        start + n <= d.len() * 8,
    ensures
        bits_val(d, start, n) < pow2(n),
    decreases n,
{
    if n == 0 {
        lemma2_to64();
    } else {
        let m = (n - 1) as nat;
        lemma_bits_val_bound(d, start, m);
        lemma_bit_le_1(d, start + n - 1);
        lemma_pow2_unfold(n);
        let bt = bit_of(d, start + n - 1);
        let pm = pow2(m);
        assert(bt * pm <= pm) by (nonlinear_arith)
            requires
                bt <= 1,
                pm >= 0,
        ;
    }
}

/// Splitting a run of bits: the low `a` bits, then the next `b` above them.
pub proof fn lemma_bits_val_split(d: Seq<u8>, start: int, a: nat, b: nat)
    ensures
        bits_val(d, start, a + b) == bits_val(d, start, a) + pow2(a) * bits_val(d, start + a, b),
    decreases b,
{
    if b > 0 {
        let b1 = (b - 1) as nat;
        lemma_bits_val_split(d, start, a, b1);
        lemma_pow2_adds(a, b1);
        let n = a + b;
        assert((n - 1) as nat == a + b1);
        let x = bit_of(d, start + a + b - 1);
        assert(start + n - 1 == start + a + b - 1);
        assert(start + a + b - 1 == (start + a) + b - 1);
        assert(bits_val(d, start, n) == bits_val(d, start, a + b1) + x * pow2(a + b1));
        assert(bits_val(d, start + a, b) == bits_val(d, start + a, b1) + x * pow2(b1));
        let pa = pow2(a);
        let pb = pow2(b1);
        let u = bits_val(d, start + a, b1);
        assert(pa * (u + x * pb) == pa * u + x * (pa * pb)) by (nonlinear_arith);
        assert(pow2(a + b1) == pa * pb);
        assert(bits_val(d, start, a + b1) == bits_val(d, start, a) + pa * u);
        assert(bits_val(d, start, n) == bits_val(d, start, a) + pa * u + x * (pa * pb));
        assert(bits_val(d, start + a, b) == u + x * pb);
    } else {
        assert(a + b == a);
        assert(bits_val(d, start + a, b) == 0);
        let pa = pow2(a);
        assert(pa * 0 == 0) by (nonlinear_arith);
    }
}

/// Eight bits from a byte boundary are that byte.
pub proof fn lemma_bits_val_byte(d: Seq<u8>, p: int)
    requires
        0 <= p < d.len(),
    ensures
        bits_val(d, 8 * p, 8) == d[p],
{
    lemma2_to64();
    let x = d[p];
    reveal_with_fuel(bits_val, 9);
    assert((8 * p + 0) / 8 == p && (8 * p + 0) % 8 == 0);
    assert(bit_of(d, 8 * p + 0) == ((x >> 0u8) & 1u8) as nat);
    assert((8 * p + 1) / 8 == p && (8 * p + 1) % 8 == 1);
    assert(bit_of(d, 8 * p + 1) == ((x >> 1u8) & 1u8) as nat);
    assert((8 * p + 2) / 8 == p && (8 * p + 2) % 8 == 2);
    assert(bit_of(d, 8 * p + 2) == ((x >> 2u8) & 1u8) as nat);
    assert((8 * p + 3) / 8 == p && (8 * p + 3) % 8 == 3);
    assert(bit_of(d, 8 * p + 3) == ((x >> 3u8) & 1u8) as nat);
    assert((8 * p + 4) / 8 == p && (8 * p + 4) % 8 == 4);
    assert(bit_of(d, 8 * p + 4) == ((x >> 4u8) & 1u8) as nat);
    assert((8 * p + 5) / 8 == p && (8 * p + 5) % 8 == 5);
    assert(bit_of(d, 8 * p + 5) == ((x >> 5u8) & 1u8) as nat);
    assert((8 * p + 6) / 8 == p && (8 * p + 6) % 8 == 6);
    assert(bit_of(d, 8 * p + 6) == ((x >> 6u8) & 1u8) as nat);
    assert((8 * p + 7) / 8 == p && (8 * p + 7) % 8 == 7);
    assert(bit_of(d, 8 * p + 7) == ((x >> 7u8) & 1u8) as nat);
    assert(x == ((x >> 0u8) & 1u8) * 1 + ((x >> 1u8) & 1u8) * 2 + ((x >> 2u8) & 1u8) * 4 + ((x >> 3u8) & 1u8) * 8
        + ((x >> 4u8) & 1u8) * 16 + ((x >> 5u8) & 1u8) * 32 + ((x >> 6u8) & 1u8) * 64 + ((x >> 7u8) & 1u8) * 128)
        by (bit_vector);
}

/// Sixteen bits from a byte boundary are the little-endian value of two bytes.
pub proof fn lemma_bits_val_u16(d: Seq<u8>, p: int)
    requires
        0 <= p,
        p + 1 < d.len(),
    ensures
        bits_val(d, 8 * p, 16) == d[p] + 256 * d[p + 1],
{
    lemma_bits_val_split(d, 8 * p, 8, 8);
    lemma_bits_val_byte(d, p);
    lemma_bits_val_byte(d, p + 1);
    lemma2_to64();
    assert(8 * p + 8 == 8 * (p + 1));
}

/// Least-significant-bit-first reader over a byte slice.
pub struct BitReader<'a> {
    b: &'a [u8],
    pos: usize,
    bit: u32,
}

impl<'a> BitReader<'a> {
    pub closed spec fn wf(&self) -> bool {
        &&& self.pos <= self.b@.len()
        &&& self.bit < 8
        &&& (self.pos == self.b@.len() ==> self.bit == 0)
    }

    /// The bytes read from.
    pub closed spec fn data(&self) -> Seq<u8> {
        self.b@
    }

    /// The index of the next bit to read.
    pub closed spec fn cursor(&self) -> int {
        self.pos * 8 + self.bit
    }

    /// Input bits not consumed yet.
    pub open spec fn remaining_bits(&self) -> int {
        self.data().len() * 8 - self.cursor()
    }

    pub fn new(b: &'a [u8]) -> (r: BitReader<'a>)
        ensures
            r.wf(),
            r.data() == b@,
            r.cursor() == 0,
    {
        BitReader { b, pos: 0, bit: 0 }
    }

    pub proof fn lemma_cursor_nonneg(&self)
        requires
            self.wf(),
        ensures
            self.cursor() >= 0,
    {
    }

    proof fn lemma_cursor_in(&self)
        requires
            self.wf(),
        ensures
            0 <= self.cursor() <= self.data().len() * 8,
    {
    }

    /// Whether at least `n` bits remain.
    fn has_bits(&self, n: u32) -> (r: bool)
        requires
            self.wf(),
            n <= 16,
        ensures
            r == (self.remaining_bits() >= n),
    {
        let avail = self.b.len() - self.pos;
        if avail >= 3 {
            true
        } else {
            (avail as u32) * 8 - self.bit >= n
        }
    }

    fn next_bit(&mut self) -> (v: u32)
        requires
            old(self).wf(),
            old(self).remaining_bits() >= 1,
        ensures
            final(self).wf(),
            final(self).data() == old(self).data(),
            final(self).cursor() == old(self).cursor() + 1,
            v == bit_of(old(self).data(), old(self).cursor()),
    {
        let x = self.b[self.pos];
        let k = self.bit as u8;
        let v = ((x >> k) & 1u8) as u32;
        proof {
            let c = self.cursor();
            assert(c / 8 == self.pos as int && c % 8 == self.bit as int);
        }
        if self.bit == 7 {
            self.bit = 0;
            self.pos = self.pos + 1;
        } else {
            self.bit = self.bit + 1;
        }
        v
    }

    /// The next `n` bits as a number, first bit least significant;
    /// `UnexpectedEof` (nothing consumed) when fewer remain.
    pub fn read_bits(&mut self, n: u32) -> (res: Result<u32, InflateError>)
        requires
            old(self).wf(),
            n <= 16,
        ensures
            final(self).wf(),
            final(self).data() == old(self).data(),
            old(self).remaining_bits() < n ==> res == Err::<u32, InflateError>(InflateError::UnexpectedEof)
                && final(self).cursor() == old(self).cursor(),
            old(self).remaining_bits() >= n ==> res == Ok::<u32, InflateError>(bits_val(old(self).data(), old(self).cursor(), n as nat) as u32)
                && final(self).cursor() == old(self).cursor() + n,
            res is Ok ==> res->Ok_0 < pow2(n as nat),
            res is Ok ==> final(self).remaining_bits() == old(self).remaining_bits() - n,
            res is Err ==> final(self).remaining_bits() == old(self).remaining_bits(),
            res is Err ==> res->Err_0 == InflateError::UnexpectedEof,
    {
        if !self.has_bits(n) {
            return Err(InflateError::UnexpectedEof);
        }
        let ghost d = self.data();
        let ghost c0 = self.cursor();
        proof {
            lemma2_to64();
            lemma_bits_val_bound(d, c0, n as nat);
            vstd::arithmetic::power2::lemma_pow2_strictly_increases(n as nat, 17);
        }
        let mut v: u32 = 0;
        let mut k: u32 = 0;
        while k < n
            invariant
                self.wf(),
                k <= n,
                n <= 16,
                self.data() == d,
                c0 + n <= d.len() * 8,
                0 <= c0,
                self.cursor() == c0 + k,
                v == bits_val(d, c0, k as nat),
            decreases n - k,
        {
            let b = self.next_bit();
            proof {
                lemma_bits_val_bound(d, c0, (k + 1) as nat);
                lemma_bit_le_1(d, c0 + k);
                lemma2_to64();
                vstd::arithmetic::power2::lemma_pow2_strictly_increases((k + 1) as nat, 17);
                vstd::arithmetic::power2::lemma_pow2_strictly_increases(k as nat, 17);
                lemma_pow2_pos(k as nat);
            }
            let p = pow2_u64(k) as u32;
            v = v + b * p;
            k += 1;
        }
        Ok(v)
    }

    /// The next `n` bits as `read_bits` gives them, without consuming them.
    pub fn peek_bits(&mut self, n: u32) -> (res: Result<u32, InflateError>)
        requires
            old(self).wf(),
            n <= 16,
        ensures
            final(self).wf(),
            final(self).data() == old(self).data(),
            final(self).cursor() == old(self).cursor(),
            old(self).remaining_bits() < n ==> res == Err::<u32, InflateError>(InflateError::UnexpectedEof),
            old(self).remaining_bits() >= n ==> res == Ok::<u32, InflateError>(bits_val(old(self).data(), old(self).cursor(), n as nat) as u32),
            res is Ok ==> res->Ok_0 < pow2(n as nat),
            res is Err ==> res->Err_0 == InflateError::UnexpectedEof,
    {
        let saved_pos = self.pos;
        let saved_bit = self.bit;
        let r = self.read_bits(n);
        self.pos = saved_pos;
        self.bit = saved_bit;
        r
    }

    pub fn drop_bits(&mut self, n: u32) -> (res: Result<(), InflateError>)
        requires
            old(self).wf(),
            n <= 16,
        ensures
            final(self).wf(),
            final(self).data() == old(self).data(),
            old(self).remaining_bits() < n ==> res is Err && final(self).cursor() == old(self).cursor(),
            old(self).remaining_bits() >= n ==> res is Ok && final(self).cursor() == old(self).cursor() + n,
            res is Ok ==> final(self).remaining_bits() == old(self).remaining_bits() - n,
            res is Err ==> final(self).remaining_bits() == old(self).remaining_bits(),
            res is Err ==> res->Err_0 == InflateError::UnexpectedEof,
    {
        self.read_bits(n)?;
        Ok(())
    }

    pub proof fn lemma_remaining_nonneg(&self)
        requires
            self.wf(),
        ensures
            self.remaining_bits() >= 0,
    {
    }

    /// Skips to the next byte boundary.
    pub fn align_to_byte(&mut self)
        requires
            old(self).wf(),
        ensures
            final(self).wf(),
            final(self).data() == old(self).data(),
            final(self).cursor() == byte_aligned(old(self).cursor()),
            final(self).remaining_bits() <= old(self).remaining_bits(),
    {
        if self.bit != 0 && self.pos < self.b.len() {
            self.bit = 0;
            self.pos = self.pos + 1;
        }
    }
}

/// `c` rounded up to a multiple of eight.
pub open spec fn byte_aligned(c: int) -> int {
    if c % 8 == 0 { c } else { c + 8 - c % 8 }
}

// ---- Huffman tables ----

#[derive(Clone, Copy)]
pub struct HuffEntry {
    pub sym: u16,
    pub bits: u8,
}

/// A direct-lookup decoding table indexed by the next `max_bits` input bits.
pub struct HuffmanTable {
    max_bits: u32,
    entries: Vec<HuffEntry>,
}

impl HuffmanTable {
    pub closed spec fn wf(&self) -> bool {
        &&& 1 <= self.max_bits <= 15
        &&& self.entries@.len() == pow2(self.max_bits as nat)
        &&& forall|i: int|
            0 <= i < self.entries@.len() ==> (#[trigger] self.entries@[i]).bits <= self.max_bits
    }

    /// How many input bits a lookup looks at.
    pub closed spec fn width(&self) -> u32 {
        self.max_bits
    }

    /// The symbol and code length filed under the lookup index `i`.
    pub closed spec fn entry(&self, i: int) -> HuffEntry {
        self.entries@[i]
    }

    pub proof fn lemma_wf(&self)
        requires
            self.wf(),
        ensures
            1 <= self.width() <= 15,
            forall|i: int| 0 <= i < pow2(self.width() as nat) ==> (#[trigger] self.entry(i)).bits <= self.width(),
    {
    }
}

/// What decoding one symbol with `t` from bit `c` of `d` gives: the symbol
/// and the bit after its code, `UnexpectedEof` when fewer bits remain than
/// the table looks at, `InvalidCode` where the table has no code.
pub open spec fn huff_decode_spec(t: HuffmanTable, d: Seq<u8>, c: int) -> Result<(u32, int), InflateError> {
    if d.len() * 8 - c < t.width() {
        Err(InflateError::UnexpectedEof)
    } else {
        let e = t.entry(bits_val(d, c, t.width() as nat) as int);
        if e.bits == 0 { Err(InflateError::InvalidCode) } else { Ok((e.sym as u32, c + e.bits)) }
    }
}

/// The low `len` bits of `code` in reverse order: bit 0 of `code` becomes
/// the top bit of the result.
pub open spec fn rev_bits(code: nat, len: nat) -> nat
    decreases len,
{
    if len == 0 { 0 } else { rev_bits(code, (len - 1) as nat) * 2 + (code / pow2((len - 1) as nat)) % 2 }
}

/// The low `len` bits of `code`, in reverse order.
pub fn reverse_bits(code: u16, len: usize) -> (r: u16)
    requires
        len <= 15,
    ensures
        r == rev_bits(code as nat, len as nat),
        r < pow2(len as nat),
{
    let mut x = code;
    let mut out: u16 = 0;
    let mut i: usize = 0;
    proof {
        lemma2_to64();
    }
    while i < len
        invariant
            i <= len,
            len <= 15,
            out < pow2(i as nat),
            out == rev_bits(code as nat, i as nat),
            x == (code as nat) / pow2(i as nat),
        decreases len - i,
    {
        proof {
            lemma_pow2_unfold((i + 1) as nat);
            lemma2_to64();
            lemma_pow2_pos(i as nat);
            if i < 15 {
                vstd::arithmetic::power2::lemma_pow2_strictly_increases(i as nat, 15);
            }
            vstd::arithmetic::div_mod::lemma_div_denominator(code as int, pow2(i as nat) as int, 2);
            assert(pow2(i as nat) * 2 == pow2((i + 1) as nat));
        }
        out = out * 2 + x % 2;
        x = x / 2;
        i += 1;
    }
    out
}

/// The longest code length of `ls`.
pub open spec fn max_len_of(ls: Seq<u8>) -> nat
    decreases ls.len(),
{
    if ls.len() == 0 {
        0
    } else {
        let m = max_len_of(ls.drop_last());
        if ls.last() > m { ls.last() as nat } else { m }
    }
}

/// How many of the first `n` symbols have code length `l`.
pub open spec fn count_len(ls: Seq<u8>, l: nat, n: int) -> nat
    decreases n,
{
    if n <= 0 {
        0
    } else {
        count_len(ls, l, n - 1) + if ls[n - 1] == l { 1nat } else { 0nat }
    }
}

/// The first canonical code of length `l` (RFC 1951 §3.2.2), kept to 16
/// bits.
pub open spec fn first_code(ls: Seq<u8>, l: nat) -> nat
    decreases l,
{
    if l <= 1 {
        0
    } else {
        let prev = (l - 1) as nat;
        ((first_code(ls, prev) + count_len(ls, prev, ls.len() as int)) * 2) % 65536
    }
}

/// The canonical code of symbol `s`.
pub open spec fn code_of(ls: Seq<u8>, s: int) -> nat {
    (first_code(ls, ls[s] as nat) + count_len(ls, ls[s] as nat, s)) % 65536
}

/// How many bits the table for `ls` looks at.
pub open spec fn width_of(ls: Seq<u8>) -> u32 {
    if max_len_of(ls) == 0 { 1 } else { max_len_of(ls) as u32 }
}

/// Whether `ls` makes a table: no length over 15, and the codes fit.
pub open spec fn table_ok(ls: Seq<u8>) -> bool {
    max_len_of(ls) == 0 || (max_len_of(ls) <= 15 && first_code(ls, 15) + count_len(ls, 15, ls.len() as int) <= 32768)
}

/// The lookup entry at index `i` after the first `n` symbols are filed: the
/// last symbol `s` with a code whose reversed bits are the low `ls[s]` bits
/// of `i`, or an empty entry.
pub open spec fn entry_upto(ls: Seq<u8>, i: int, n: int) -> HuffEntry
    decreases n,
{
    if n <= 0 {
        HuffEntry { sym: 0, bits: 0 }
    } else {
        let s = n - 1;
        let l = ls[s] as nat;
        if l != 0 && i % (pow2(l) as int) == rev_bits(code_of(ls, s), l) {
            HuffEntry { sym: s as u16, bits: ls[s] }
        } else {
            entry_upto(ls, i, n - 1)
        }
    }
}

pub open spec fn entry_of(ls: Seq<u8>, i: int) -> HuffEntry {
    entry_upto(ls, i, ls.len() as int)
}

proof fn lemma_max_len(ls: Seq<u8>, n: int)
    requires
        0 <= n <= ls.len(),
    ensures
        forall|j: int| 0 <= j < n ==> ls[j] <= max_len_of(ls.take(n)),
        max_len_of(ls.take(n)) <= 255,
    decreases n,
{
    if n > 0 {
        lemma_max_len(ls, n - 1);
        assert(ls.take(n).drop_last() =~= ls.take(n - 1));
    }
}

proof fn lemma_no_codes(ls: Seq<u8>, i: int, n: int)
    requires
        n <= ls.len(),
        forall|j: int| 0 <= j < ls.len() ==> ls[j] == 0,
    ensures
        entry_upto(ls, i, n) == (HuffEntry { sym: 0, bits: 0 }),
    decreases n,
{
    if n > 0 {
        lemma_no_codes(ls, i, n - 1);
    }
}

proof fn lemma_entry_bits(ls: Seq<u8>, i: int, n: int)
    requires
        n <= ls.len(),
        forall|j: int| 0 <= j < ls.len() ==> ls[j] <= max_len_of(ls),
    ensures
        entry_upto(ls, i, n).bits <= max_len_of(ls),
    decreases n,
{
    if n > 0 {
        lemma_entry_bits(ls, i, n - 1);
    }
}

proof fn lemma_residue_unique(j: int, idx: int, step: int)
    requires
        step > 0,
        idx <= j < idx + step,
        j % step == idx % step,
    ensures
        j == idx,
{
    vstd::arithmetic::div_mod::lemma_fundamental_div_mod(j, step);
    vstd::arithmetic::div_mod::lemma_fundamental_div_mod(idx, step);
    assert(step * (j / step) - step * (idx / step) == j - idx);
    assert(step * (j / step - idx / step) == j - idx) by (nonlinear_arith)
        requires
            step * (j / step) - step * (idx / step) == j - idx,
    ;
    if j / step - idx / step >= 1 {
        assert(step * (j / step - idx / step) >= step) by (nonlinear_arith)
            requires
                j / step - idx / step >= 1,
                step > 0,
        ;
    } else if j / step - idx / step <= -1 {
        assert(step * (j / step - idx / step) <= -step) by (nonlinear_arith)
            requires
                j / step - idx / step <= -1,
                step > 0,
        ;
    }
}

impl HuffmanTable {
    /// Canonical Huffman decoding table for the given code lengths (0 =
    /// unused): a table looking at the longest length's worth of bits (one
    /// bit when no symbol has a code), filing each symbol at every index
    /// whose low bits are its reversed code.
    pub fn build(code_lengths: &[u8]) -> (res: Result<HuffmanTable, InflateError>)
        requires
            code_lengths@.len() <= 320,
        ensures
            res is Ok ==> res->Ok_0.wf(),
            res is Err ==> res->Err_0 == InflateError::InvalidCode,
            res is Ok <==> table_ok(code_lengths@),
            res matches Ok(t) ==> t.width() == width_of(code_lengths@)
                && forall|i: int| 0 <= i < pow2(t.width() as nat) ==> #[trigger] t.entry(i) == entry_of(code_lengths@, i),
    {
        let ghost ls = code_lengths@;
        let mut max_len: u32 = 0;
        let mut i: usize = 0;
        while i < code_lengths.len()
            invariant
                i <= ls.len(),
                ls == code_lengths@,
                max_len == max_len_of(ls.take(i as int)),
                max_len <= 255,
            decreases ls.len() - i,
        {
            assert(ls.take(i + 1).drop_last() =~= ls.take(i as int));
            if code_lengths[i] as u32 > max_len {
                max_len = code_lengths[i] as u32;
            }
            i += 1;
        }
        assert(ls.take(ls.len() as int) =~= ls);
        proof {
            lemma2_to64();
            lemma_max_len(ls, ls.len() as int);
        }
        if max_len == 0 {
            let entries: Vec<HuffEntry> = vec![HuffEntry { sym: 0, bits: 0 }, HuffEntry { sym: 0, bits: 0 }];
            let t = HuffmanTable { max_bits: 1, entries };
            proof {
                assert forall|i: int| 0 <= i < pow2(t.width() as nat) implies #[trigger] t.entry(i) == entry_of(ls, i) by {
                    lemma_no_codes(ls, i, ls.len() as int);
                }
            }
            return Ok(t);
        }
        if max_len > 15 {
            return Err(InflateError::InvalidCode);
        }
        let max_bits = max_len;
        let size = pow2_u64(max_bits) as usize;
        proof {
            vstd::arithmetic::power2::lemma_pow2_strictly_increases(max_bits as nat, 16);
        }
        let mut entries: Vec<HuffEntry> = Vec::new();
        let mut k: usize = 0;
        while k < size
            invariant
                k <= size,
                entries@.len() == k,
                forall|j: int| 0 <= j < k ==> (#[trigger] entries@[j]) == entry_upto(ls, j, 0),
            decreases size - k,
        {
            entries.push(HuffEntry { sym: 0, bits: 0 });
            k += 1;
        }

        let mut bl_count: [u16; 16] = [0u16; 16];
        let mut i: usize = 0;
        while i < code_lengths.len()
            invariant
                i <= ls.len(),
                ls == code_lengths@,
                ls.len() <= 320,
                forall|j: int| 0 <= j < ls.len() ==> ls[j] <= max_len,
                max_len <= 15,
                bl_count@.len() == 16,
                bl_count@[0] == 0,
                forall|l: int| 1 <= l < 16 ==> #[trigger] bl_count@[l] == count_len(ls, l as nat, i as int),
                forall|l: int| 0 <= l < 16 ==> #[trigger] bl_count@[l] <= i,
            decreases ls.len() - i,
        {
            let l = code_lengths[i] as usize;
            if l != 0 {
                bl_count[l] = bl_count[l] + 1;
            }
            i += 1;
        }

        let mut next_code: [u16; 16] = [0u16; 16];
        let mut code: u16 = 0;
        let mut bits: usize = 1;
        while bits <= 15
            invariant
                1 <= bits <= 16,
                bl_count@.len() == 16,
                next_code@.len() == 16,
                bl_count@[0] == 0,
                forall|l: int| 1 <= l < 16 ==> #[trigger] bl_count@[l] == count_len(ls, l as nat, ls.len() as int),
                code == (if bits == 1 { 0 } else { first_code(ls, (bits - 1) as nat) }),
                forall|l: int| 1 <= l < bits ==> #[trigger] next_code@[l] == first_code(ls, l as nat),
            decreases 16 - bits,
        {
            code = code.wrapping_add(bl_count[bits - 1]);
            code = code.wrapping_mul(2);
            proof {
                if bits == 1 {
                    assert(first_code(ls, 1) == 0);
                } else {
                    assert(first_code(ls, bits as nat) == ((first_code(ls, (bits - 1) as nat) + count_len(ls, (bits - 1) as nat, ls.len() as int)) * 2) % 65536);
                }
            }
            next_code[bits] = code;
            bits += 1;
        }
        if next_code[15] as u32 + bl_count[15] as u32 > 32768 {
            return Err(InflateError::InvalidCode);
        }

        let mut sym: usize = 0;
        while sym < code_lengths.len()
            invariant
                sym <= ls.len(),
                ls == code_lengths@,
                ls.len() <= 320,
                forall|j: int| 0 <= j < ls.len() ==> ls[j] <= max_len,
                max_len == max_bits,
                max_len == max_len_of(ls),
                1 <= max_bits <= 15,
                size == pow2(max_bits as nat),
                size <= 32768,
                entries@.len() == size,
                next_code@.len() == 16,
                forall|l: int| 1 <= l < 16 ==> #[trigger] next_code@[l] == (first_code(ls, l as nat) + count_len(ls, l as nat, sym as int)) % 65536,
                forall|j: int| 0 <= j < size ==> (#[trigger] entries@[j]) == entry_upto(ls, j, sym as int),
            decreases ls.len() - sym,
        {
            let len = code_lengths[sym] as usize;
            if len != 0 {
                let c = next_code[len];
                next_code[len] = next_code[len].wrapping_add(1);
                let r = reverse_bits(c, len) as usize;
                let step = pow2_u64(len as u32) as usize;
                proof {
                    vstd::arithmetic::power2::lemma_pow2_strictly_increases(len as nat, 16);
                    lemma2_to64();
                    assert(c == code_of(ls, sym as int));
                    if len < max_bits {
                        vstd::arithmetic::power2::lemma_pow2_strictly_increases(len as nat, max_bits as nat);
                    }
                    vstd::arithmetic::power2::lemma_pow2_pos(len as nat);
                }
                let ghost new_e = HuffEntry { sym: sym as u16, bits: len as u8 };
                let mut idx: usize = r;
                assert(idx % step == r) by {
                    vstd::arithmetic::div_mod::lemma_small_mod(r as nat, step as nat);
                }
                assert forall|j: int| 0 <= j < r implies #[trigger] (j % (step as int)) == j by {
                    vstd::arithmetic::div_mod::lemma_small_mod(j as nat, step as nat);
                }
                while idx < size
                    invariant
                        size <= 32768,
                        step >= 1,
                        step < 65536,
                        r < step,
                        step <= size,
                        idx < size + 65536,
                        idx % step == r,
                        idx >= r,
                        new_e == (HuffEntry { sym: sym as u16, bits: len as u8 }),
                        entries@.len() == size,
                        forall|j: int| 0 <= j < size ==> (#[trigger] entries@[j]) == (if j < idx && j % (step as int) == r {
                            new_e
                        } else {
                            entry_upto(ls, j, sym as int)
                        }),
                    decreases size + 65536 - idx,
                {
                    let ghost before = entries@;
                    entries.set(idx, HuffEntry { sym: sym as u16, bits: len as u8 });
                    let ghost old_idx = idx;
                    idx = idx + step;
                    proof {
                        vstd::arithmetic::div_mod::lemma_mod_add_multiples_vanish(old_idx as int, step as int);
                        assert forall|j: int| 0 <= j < size implies (#[trigger] entries@[j]) == (if j < idx && j % (step as int) == r {
                            new_e
                        } else {
                            entry_upto(ls, j, sym as int)
                        }) by {
                            if j == old_idx {
                                assert(entries@[j] == new_e);
                            } else {
                                assert(entries@[j] == before[j]);
                                if old_idx < j < idx && j % (step as int) == r {
                                    lemma_residue_unique(j, old_idx as int, step as int);
                                }
                            }
                        }
                    }
                }
                proof {
                    assert forall|j: int| 0 <= j < size implies (#[trigger] entries@[j]) == entry_upto(ls, j, sym + 1) by {
                        assert(rev_bits(code_of(ls, sym as int), len as nat) == r);
                    }
                    assert forall|l: int| 1 <= l < 16 implies #[trigger] next_code@[l] == (first_code(ls, l as nat) + count_len(ls, l as nat, sym + 1)) % 65536 by {}
                }
            } else {
                proof {
                    assert forall|l: int| 1 <= l < 16 implies #[trigger] next_code@[l] == (first_code(ls, l as nat) + count_len(ls, l as nat, sym + 1)) % 65536 by {}
                }
            }
            sym += 1;
        }
        let t = HuffmanTable { max_bits, entries };
        proof {
            assert forall|j: int| 0 <= j < t.entries@.len() implies (#[trigger] t.entries@[j]).bits <= t.max_bits by {
                lemma_entry_bits(ls, j, ls.len() as int);
            }
        }
        Ok(t)
    }

    /// Decode one symbol, consuming its code's bits.
    pub fn decode(&self, br: &mut BitReader) -> (res: Result<u32, InflateError>)
        requires
            self.wf(),
            old(br).wf(),
        ensures
            final(br).wf(),
            final(br).data() == old(br).data(),
            match huff_decode_spec(*self, old(br).data(), old(br).cursor()) {
                Ok((sym, c)) => res == Ok::<u32, InflateError>(sym) && final(br).cursor() == c,
                Err(e) => res == Err::<u32, InflateError>(e) && final(br).cursor() == old(br).cursor(),
            },
            final(br).remaining_bits() <= old(br).remaining_bits(),
            res is Ok ==> final(br).remaining_bits() < old(br).remaining_bits(),
            res is Ok ==> res->Ok_0 < 65536,
    {
        let ghost c0 = br.cursor();
        let pk = br.peek_bits(self.max_bits)?;
        proof {
            br.lemma_remaining_nonneg();
            br.lemma_cursor_nonneg();
            lemma_bits_val_bound(br.data(), c0, self.max_bits as nat);
            lemma2_to64();
            vstd::arithmetic::power2::lemma_pow2_strictly_increases(self.max_bits as nat, 16);
            assert(pk == bits_val(br.data(), c0, self.max_bits as nat));
        }
        let idx = pk as usize;
        let e = self.entries[idx];
        if e.bits == 0 {
            return Err(InflateError::InvalidCode);
        }
        br.drop_bits(e.bits as u32)?;
        Ok(e.sym as u32)
    }
}

// ---- block decoding ----

pub open spec fn length_base_table() -> Seq<int> {
    seq![3, 4, 5, 6, 7, 8, 9, 10, 11, 13, 15, 17, 19, 23, 27, 31, 35, 43, 51, 59, 67, 83, 99, 115,
        131, 163, 195, 227, 258]
}

pub open spec fn length_extra_table() -> Seq<int> {
    seq![0, 0, 0, 0, 0, 0, 0, 0, 1, 1, 1, 1, 2, 2, 2, 2, 3, 3, 3, 3, 4, 4, 4, 4, 5, 5, 5, 5, 0]
}

pub open spec fn dist_base_table() -> Seq<int> {
    seq![1, 2, 3, 4, 5, 7, 9, 13, 17, 25, 33, 49, 65, 97, 129, 193, 257, 385, 513, 769, 1025,
        1537, 2049, 3073, 4097, 6145, 8193, 12289, 16385, 24577]
}

pub open spec fn dist_extra_table() -> Seq<int> {
    seq![0, 0, 0, 0, 1, 1, 2, 2, 3, 3, 4, 4, 5, 5, 6, 6, 7, 7, 8, 8, 9, 9, 10, 10, 11, 11, 12, 12,
        13, 13]
}

/// Base length and extra-bit count of a length symbol (257..=285).
pub fn length_code(sym: u16) -> (res: Result<(usize, u32), InflateError>)
    ensures
        257 <= sym <= 285 ==> res is Ok && res->Ok_0.0 == length_base_table()[sym - 257]
            && res->Ok_0.1 == length_extra_table()[sym - 257],
        !(257 <= sym <= 285) ==> res == Err::<(usize, u32), InflateError>(InflateError::InvalidCode),
{
    let base: [usize; 29] = [
        3, 4, 5, 6, 7, 8, 9, 10, 11, 13, 15, 17, 19, 23, 27, 31, 35, 43, 51, 59, 67, 83, 99, 115,
        131, 163, 195, 227, 258,
    ];
    let extra: [u32; 29] = [
        0, 0, 0, 0, 0, 0, 0, 0, 1, 1, 1, 1, 2, 2, 2, 2, 3, 3, 3, 3, 4, 4, 4, 4, 5, 5, 5, 5, 0,
    ];
    if sym < 257 || sym > 285 {
        return Err(InflateError::InvalidCode);
    }
    let i = (sym - 257) as usize;
    assert(base@ =~= length_base_table().map_values(|x: int| x as usize));
    assert(extra@ =~= length_extra_table().map_values(|x: int| x as u32));
    Ok((base[i], extra[i]))
}

/// Base distance and extra-bit count of a distance symbol (0..=29).
pub fn distance_code(sym: u16) -> (res: Result<(usize, u32), InflateError>)
    ensures
        sym < 30 ==> res is Ok && res->Ok_0.0 == dist_base_table()[sym as int] && res->Ok_0.1
            == dist_extra_table()[sym as int],
        sym >= 30 ==> res == Err::<(usize, u32), InflateError>(InflateError::InvalidCode),
{
    let base: [usize; 30] = [
        1, 2, 3, 4, 5, 7, 9, 13, 17, 25, 33, 49, 65, 97, 129, 193, 257, 385, 513, 769, 1025, 1537,
        2049, 3073, 4097, 6145, 8193, 12289, 16385, 24577,
    ];
    let extra: [u32; 30] = [
        0, 0, 0, 0, 1, 1, 2, 2, 3, 3, 4, 4, 5, 5, 6, 6, 7, 7, 8, 8, 9, 9, 10, 10, 11, 11, 12, 12,
        13, 13,
    ];
    let i = sym as usize;
    if i >= 30 {
        return Err(InflateError::InvalidCode);
    }
    assert(base@ =~= dist_base_table().map_values(|x: int| x as usize));
    assert(extra@ =~= dist_extra_table().map_values(|x: int| x as u32));
    Ok((base[i], extra[i]))
}

/// LZ77 back-reference: append `length` bytes copied from `distance` back,
/// repeating the window when the copy overlaps the output.
pub fn copy_from_history(out: &mut Vec<u8>, distance: usize, length: usize, max_out: usize) -> (res:
    Result<(), InflateError>)
    ensures
        distance == 0 ==> res == Err::<(), InflateError>(InflateError::InvalidCode),
        0 < distance && distance > old(out)@.len() ==> res == Err::<(), InflateError>(
            InflateError::InvalidCode,
        ),
        0 < distance <= old(out)@.len() && old(out)@.len() + length > max_out ==> res == Err::<
            (),
            InflateError,
        >(InflateError::OutputLimit),
        0 < distance <= old(out)@.len() && old(out)@.len() + length <= max_out ==> res is Ok
            && final(out)@ == old(out)@ + Seq::new(
            length as nat,
            |i: int| old(out)@[old(out)@.len() - distance + i % (distance as int)],
        ),
        res is Err ==> final(out)@ == old(out)@,
{
    if distance == 0 {
        return Err(InflateError::InvalidCode);
    }
    if distance > out.len() {
        return Err(InflateError::InvalidCode);
    }
    if out.len() > max_out || max_out - out.len() < length {
        return Err(InflateError::OutputLimit);
    }
    let ghost o = out@;
    let start = out.len() - distance;
    let mut i: usize = 0;
    while i < length
        invariant
            i <= length,
            o == old(out)@,
            0 < distance <= o.len(),
            start == o.len() - distance,
            o.len() + length <= max_out,
            out@ == o + Seq::new(i as nat, |j: int| o[o.len() - distance + j % (distance as int)]),
        decreases length - i,
    {
        let b = out[start + (i % distance)];
        out.push(b);
        i += 1;
        assert(out@ =~= o + Seq::new(i as nat, |j: int| o[o.len() - distance + j % (distance as int)]));
    }
    Ok(())
}

/// What a stored block starting at bit `c` of `d` gives after `out`: from
/// the next byte boundary, LEN and its complement NLEN (16 bits each, little
/// endian), then LEN bytes copied out; the output and the bit after the
/// block.
#[verifier::opaque]
pub open spec fn stored_block_spec(d: Seq<u8>, c: int, out: Seq<u8>, max_out: int) -> Result<(Seq<u8>, int), InflateError> {
    let a = byte_aligned(c);
    let p = a / 8;
    if d.len() * 8 - a < 32 {
        Err(InflateError::UnexpectedEof)
    } else {
        let len = d[p] + 256 * d[p + 1];
        let nlen = d[p + 2] + 256 * d[p + 3];
        if len + nlen != 65535 {
            Err(InflateError::StoredLengthMismatch)
        } else if max_out - out.len() < len {
            Err(InflateError::OutputLimit)
        } else if d.len() - (p + 4) < len {
            Err(InflateError::UnexpectedEof)
        } else {
            Ok((out + d.subrange(p + 4, p + 4 + len), a + 32 + 8 * len))
        }
    }
}

/// Stored block: byte-aligned LEN, its complement NLEN, then LEN raw bytes.
fn decode_stored_block(br: &mut BitReader, out: &mut Vec<u8>, max_out: usize) -> (res: Result<
    (),
    InflateError,
>)
    requires
        old(br).wf(),
        old(out)@.len() <= max_out,
    ensures
        final(br).wf(),
        final(br).data() == old(br).data(),
        match stored_block_spec(old(br).data(), old(br).cursor(), old(out)@, max_out as int) {
            Ok((o, c)) => res is Ok && final(out)@ == o && final(br).cursor() == c,
            Err(e) => res == Err::<(), InflateError>(e),
        },
        final(out)@.len() <= max_out,
        final(br).remaining_bits() <= old(br).remaining_bits(),
        res is Ok ==> final(br).remaining_bits() < old(br).remaining_bits(),
{
    let ghost d = br.data();
    br.align_to_byte();
    proof { reveal(stored_block_spec); }
    let ghost a = br.cursor();
    let ghost p = a / 8;
    proof {
        br.lemma_cursor_nonneg();
        assert(a % 8 == 0);
        if d.len() * 8 - a >= 32 {
            lemma_bits_val_u16(d, p);
            lemma_bits_val_u16(d, p + 2);
            assert(8 * p == a);
            assert(8 * (p + 2) == a + 16);
        }
    }
    let len = br.read_bits(16)?;
    let nlen = br.read_bits(16)?;
    proof {
        lemma2_to64();
    }
    if len + nlen != 65535 {
        return Err(InflateError::StoredLengthMismatch);
    }
    let len = len as usize;
    if max_out - out.len() < len {
        return Err(InflateError::OutputLimit);
    }
    let ghost o0 = out@;
    let mut k: usize = 0;
    while k < len
        invariant
            br.wf(),
            br.data() == d,
            d == old(br).data(),
            a == byte_aligned(old(br).cursor()),
            len + (d[p + 2] + 256 * d[p + 3]) == 65535,
            k <= len,
            len < 65536,
            a % 8 == 0,
            p == a / 8,
            0 <= a,
            br.cursor() == a + 32 + 8 * k,
            d.len() * 8 - a >= 32,
            len == d[p] + 256 * d[p + 1],
            out@ == o0 + d.subrange(p + 4, p + 4 + k),
            o0 == old(out)@,
            old(out)@.len() + len <= max_out,
            old(br).remaining_bits() >= a - old(br).cursor() + 32,
            a >= old(br).cursor(),
        decreases len - k,
    {
        proof {
            reveal(stored_block_spec);
            if d.len() * 8 - (a + 32 + 8 * k) >= 8 {
                assert(p + 4 + k < d.len());
                lemma_bits_val_byte(d, p + 4 + k);
                assert(8 * (p + 4 + k) == a + 32 + 8 * k);
            } else {
                assert(d.len() - (p + 4) < len);
            }
        }
        let v = br.read_bits(8)?;
        proof {
            lemma2_to64();
        }
        out.push(v as u8);
        k += 1;
        assert(out@ =~= o0 + d.subrange(p + 4, p + 4 + k));
    }
    Ok(())
}

/// One step of a Huffman-coded block: the block ended, a symbol was
/// handled and decoding goes on, or decoding failed.
pub enum BlockStep {
    Done(Seq<u8>, int),
    More(Seq<u8>, int),
    Fail(InflateError),
}

/// `n` extra bits at `c`: none needed for zero, `None` when fewer remain.
pub open spec fn extra_bits(d: Seq<u8>, c: int, n: int) -> Option<(int, int)> {
    if n == 0 {
        Some((0, c))
    } else if d.len() * 8 - c < n {
        None
    } else {
        Some((bits_val(d, c, n as nat) as int, c + n))
    }
}

/// LZ77 back-reference: `length` bytes copied from `distance` back.
pub open spec fn copied(out: Seq<u8>, distance: int, length: int) -> Seq<u8> {
    out + Seq::new(length as nat, |i: int| out[out.len() - distance + i % distance])
}

/// One symbol of a block coded with `lit` and `dist`, read at bit `c` of
/// `d` after output `out`: a literal byte, the end of the block (256), or a
/// length symbol with its extra bits, a distance symbol with its extra bits,
/// and the copy they describe.
pub open spec fn block_step(lit: HuffmanTable, dist: HuffmanTable, d: Seq<u8>, c: int, out: Seq<u8>, max_out: int) -> BlockStep {
    match huff_decode_spec(lit, d, c) {
        Err(e) => BlockStep::Fail(e),
        Ok((sym, c1)) => {
            if sym < 256 {
                if out.len() >= max_out {
                    BlockStep::Fail(InflateError::OutputLimit)
                } else {
                    BlockStep::More(out.push(sym as u8), c1)
                }
            } else if sym == 256 {
                BlockStep::Done(out, c1)
            } else if sym <= 285 {
                let lb = length_base_table()[sym - 257];
                match extra_bits(d, c1, length_extra_table()[sym - 257]) {
                    None => BlockStep::Fail(InflateError::UnexpectedEof),
                    Some((lx, c2)) => match huff_decode_spec(dist, d, c2) {
                        Err(e) => BlockStep::Fail(e),
                        Ok((ds, c3)) => {
                            if ds >= 30 {
                                BlockStep::Fail(InflateError::InvalidCode)
                            } else {
                                match extra_bits(d, c3, dist_extra_table()[ds as int]) {
                                    None => BlockStep::Fail(InflateError::UnexpectedEof),
                                    Some((dx, c4)) => {
                                        let distance = dist_base_table()[ds as int] + dx;
                                        let length = lb + lx;
                                        if distance > out.len() {
                                            BlockStep::Fail(InflateError::InvalidCode)
                                        } else if out.len() + length > max_out {
                                            BlockStep::Fail(InflateError::OutputLimit)
                                        } else {
                                            BlockStep::More(copied(out, distance, length), c4)
                                        }
                                    },
                                }
                            }
                        },
                    },
                }
            } else {
                BlockStep::Fail(InflateError::InvalidCode)
            }
        },
    }
}

/// A Huffman-coded block read from bit `c` of `d` after output `out`:
/// symbols until the end-of-block symbol; the output and the bit after the
/// block.
#[verifier::opaque]
pub open spec fn compressed_block_spec(lit: HuffmanTable, dist: HuffmanTable, d: Seq<u8>, c: int, out: Seq<u8>, max_out: int)
    -> Result<(Seq<u8>, int), InflateError>
    decreases d.len() * 8 - c,
{
    match block_step(lit, dist, d, c, out, max_out) {
        BlockStep::Fail(e) => Err(e),
        BlockStep::Done(o, c1) => Ok((o, c1)),
        BlockStep::More(o, c1) => {
            if c < c1 && c1 <= d.len() * 8 {
                compressed_block_spec(lit, dist, d, c1, o, max_out)
            } else {
                Err(InflateError::InvalidCode)
            }
        },
    }
}

fn read_extra(br: &mut BitReader, n: u32) -> (res: Result<usize, InflateError>)
    requires
        old(br).wf(),
        n <= 13,
    ensures
        final(br).wf(),
        final(br).data() == old(br).data(),
        match extra_bits(old(br).data(), old(br).cursor(), n as int) {
            None => res == Err::<usize, InflateError>(InflateError::UnexpectedEof),
            Some((v, c)) => res == Ok::<usize, InflateError>(v as usize) && final(br).cursor() == c && v < 8192
                && v < pow2(n as nat),
        },
        final(br).cursor() >= old(br).cursor(),
{
    proof {
        lemma2_to64();
    }
    if n == 0 {
        return Ok(0);
    }
    let v = br.read_bits(n)?;
    proof {
        lemma2_to64();
        if n < 13 {
            vstd::arithmetic::power2::lemma_pow2_strictly_increases(n as nat, 13);
        }
        assert(pow2(13) == 8192);
        br.lemma_cursor_nonneg();
        lemma_bits_val_bound(br.data(), old(br).cursor(), n as nat);
    }
    Ok(v as usize)
}

/// Decodes one symbol of a block (see `block_step`); tells whether it
/// ended the block.
fn decode_block_symbol(br: &mut BitReader, out: &mut Vec<u8>, litlen: &HuffmanTable, dist: &HuffmanTable, max_out: usize)
    -> (res: Result<bool, InflateError>)
    requires
        old(br).wf(),
        litlen.wf(),
        dist.wf(),
        old(out)@.len() <= max_out,
    ensures
        final(br).wf(),
        final(br).data() == old(br).data(),
        final(out)@.len() <= max_out,
        final(br).cursor() >= old(br).cursor(),
        final(br).remaining_bits() < old(br).remaining_bits() || res is Err,
        match block_step(*litlen, *dist, old(br).data(), old(br).cursor(), old(out)@, max_out as int) {
            BlockStep::Fail(e) => res == Err::<bool, InflateError>(e),
            BlockStep::Done(o, c) => res == Ok::<bool, InflateError>(true) && final(out)@ == o && final(br).cursor() == c,
            BlockStep::More(o, c) => res == Ok::<bool, InflateError>(false) && final(out)@ == o && final(br).cursor() == c,
        },
{
    proof {
        lemma2_to64();
    }
    let ghost d = br.data();
    let ghost c0 = br.cursor();
    let sym = litlen.decode(br)? as u16;
    if sym < 256 {
        if out.len() >= max_out {
            return Err(InflateError::OutputLimit);
        }
        out.push(sym as u8);
        return Ok(false);
    } else if sym == 256 {
        return Ok(true);
    } else if sym <= 285 {
        let (len_base, len_extra) = length_code(sym)?;
        proof {
            assert(length_extra_table()[sym - 257] <= 5);
            assert(length_base_table()[sym - 257] <= 258);
        }
        let extra = read_extra(br, len_extra)?;
        let length = len_base + extra;
        let dist_sym = dist.decode(br)? as u16;
        let (dist_base, dist_extra) = distance_code(dist_sym)?;
        proof {
            assert(dist_extra_table()[dist_sym as int] <= 13);
            assert(dist_base_table()[dist_sym as int] <= 24577);
        }
        let dist_extra_val = read_extra(br, dist_extra)?;
        let distance = dist_base + dist_extra_val;
        copy_from_history(out, distance, length, max_out)?;
        return Ok(false);
    } else {
        return Err(InflateError::InvalidCode);
    }
}

fn decode_compressed_block(
    br: &mut BitReader,
    out: &mut Vec<u8>,
    litlen: &HuffmanTable,
    dist: &HuffmanTable,
    max_out: usize,
) -> (res: Result<(), InflateError>)
    requires
        old(br).wf(),
        litlen.wf(),
        dist.wf(),
        old(out)@.len() <= max_out,
    ensures
        final(br).wf(),
        final(br).data() == old(br).data(),
        match compressed_block_spec(*litlen, *dist, old(br).data(), old(br).cursor(), old(out)@, max_out as int) {
            Ok((o, c)) => res is Ok && final(out)@ == o && final(br).cursor() == c,
            Err(e) => res == Err::<(), InflateError>(e),
        },
        final(out)@.len() <= max_out,
        final(br).remaining_bits() <= old(br).remaining_bits(),
        res is Ok ==> final(br).remaining_bits() < old(br).remaining_bits(),
{
    loop
        invariant
            br.wf(),
            litlen.wf(),
            dist.wf(),
            out@.len() <= max_out,
            br.data() == old(br).data(),
            br.remaining_bits() <= old(br).remaining_bits(),
            compressed_block_spec(*litlen, *dist, br.data(), br.cursor(), out@, max_out as int)
                == compressed_block_spec(*litlen, *dist, old(br).data(), old(br).cursor(), old(out)@, max_out as int),
        decreases br.remaining_bits(),
    {
        proof {
            br.lemma_remaining_nonneg();
            br.lemma_cursor_nonneg();
        }
        let ghost c = br.cursor();
        proof { reveal(compressed_block_spec); }
        let ghost o = out@;
        let done = decode_block_symbol(br, out, litlen, dist, max_out)?;
        proof {
            br.lemma_remaining_nonneg();
        }
        if done {
            return Ok(());
        }
    }
}

/// The order in which the code-length code's lengths are sent.
pub open spec fn cl_order() -> Seq<usize> {
    seq![16usize, 17, 18, 0, 8, 7, 9, 6, 10, 5, 11, 4, 12, 3, 13, 2, 14, 1, 15]
}

fn code_length_order() -> (o: [usize; 19])
    ensures
        o@ == cl_order(),
        forall|j: int| 0 <= j < 19 ==> #[trigger] o@[j] < 19,
{
    let o: [usize; 19] = [16, 17, 18, 0, 8, 7, 9, 6, 10, 5, 11, 4, 12, 3, 13, 2, 14, 1, 15];
    assert(o@ =~= seq![16usize, 17, 18, 0, 8, 7, 9, 6, 10, 5, 11, 4, 12, 3, 13, 2, 14, 1, 15]);
    o
}

/// The code-length code's lengths after the first `n` 3-bit fields from
/// bit `c` (the others zero).
pub open spec fn clen_after(d: Seq<u8>, c: int, n: int) -> Seq<u8>
    decreases n,
{
    if n <= 0 {
        Seq::new(19, |k: int| 0u8)
    } else {
        clen_after(d, c, n - 1).update(cl_order()[n - 1] as int, bits_val(d, c + 3 * (n - 1), 3) as u8)
    }
}

/// Decoding one symbol with the table that `ls` makes.
pub open spec fn huff_model_decode(ls: Seq<u8>, d: Seq<u8>, c: int) -> Result<(u32, int), InflateError> {
    if d.len() * 8 - c < width_of(ls) {
        Err(InflateError::UnexpectedEof)
    } else {
        let e = entry_of(ls, bits_val(d, c, width_of(ls) as nat) as int);
        if e.bits == 0 { Err(InflateError::InvalidCode) } else { Ok((e.sym as u32, c + e.bits)) }
    }
}

/// Whether `t` is the table that `ls` makes.
pub open spec fn table_of(t: HuffmanTable, ls: Seq<u8>) -> bool {
    &&& t.width() == width_of(ls)
    &&& forall|i: int| 0 <= i < pow2(t.width() as nat) ==> #[trigger] t.entry(i) == entry_of(ls, i)
}

proof fn lemma_table_decode(t: HuffmanTable, ls: Seq<u8>, d: Seq<u8>, c: int)
    requires
        t.wf(),
        table_of(t, ls),
        0 <= c,
    ensures
        huff_decode_spec(t, d, c) == huff_model_decode(ls, d, c),
{
    if d.len() * 8 - c >= t.width() {
        lemma_bits_val_bound(d, c, t.width() as nat);
        let i = bits_val(d, c, t.width() as nat) as int;
        assert(t.entry(i) == entry_of(ls, i));
    }
}

/// One code-length symbol's worth of lengths appended to `acc`: a length
/// (0..=15), the previous length 3..=6 times (16), or zeros 3..=10 times
/// (17) or 11..=138 times (18); and the bit after its extra bits.
pub open spec fn length_step(sym: u32, d: Seq<u8>, c1: int, acc: Seq<u8>) -> Result<(Seq<u8>, int), InflateError> {
    if sym <= 15 {
        Ok((acc.push(sym as u8), c1))
    } else if sym == 16 {
        if acc.len() == 0 {
            Err(InflateError::InvalidCode)
        } else {
            match extra_bits(d, c1, 2) {
                None => Err(InflateError::UnexpectedEof),
                Some((v, c2)) => Ok((acc + Seq::new((v + 3) as nat, |k: int| acc.last()), c2)),
            }
        }
    } else if sym == 17 {
        match extra_bits(d, c1, 3) {
            None => Err(InflateError::UnexpectedEof),
            Some((v, c2)) => Ok((acc + Seq::new((v + 3) as nat, |k: int| 0u8), c2)),
        }
    } else if sym == 18 {
        match extra_bits(d, c1, 7) {
            None => Err(InflateError::UnexpectedEof),
            Some((v, c2)) => Ok((acc + Seq::new((v + 11) as nat, |k: int| 0u8), c2)),
        }
    } else {
        Err(InflateError::InvalidCode)
    }
}

/// The code lengths read with the code-length code `cl` from bit `c`,
/// after `acc`, until at least `total` are known; with the bit after them.
pub open spec fn read_lengths(cl: Seq<u8>, d: Seq<u8>, c: int, acc: Seq<u8>, total: nat) -> Result<(Seq<u8>, int), InflateError>
    decreases d.len() * 8 - c,
{
    if acc.len() >= total {
        Ok((acc, c))
    } else {
        match huff_model_decode(cl, d, c) {
            Err(e) => Err(e),
            Ok((sym, c1)) => match length_step(sym, d, c1, acc) {
                Err(e) => Err(e),
                Ok((a2, c2)) => if c < c2 && c2 <= d.len() * 8 {
                    read_lengths(cl, d, c2, a2, total)
                } else {
                    Err(InflateError::InvalidCode)
                },
            },
        }
    }
}

/// A dynamic block's header from bit `c`: HLIT, HDIST and HCLEN, the
/// code-length code's lengths, then the literal/length and distance code
/// lengths; the two length lists and the bit after the header.
#[verifier::opaque]
pub open spec fn dynamic_tables_spec(d: Seq<u8>, c: int) -> Result<(Seq<u8>, Seq<u8>, int), InflateError> {
    let tb = d.len() * 8;
    if tb - c < 14 {
        Err(InflateError::UnexpectedEof)
    } else {
        let hlit = bits_val(d, c, 5) + 257;
        let hdist = bits_val(d, c + 5, 5) + 1;
        let hclen = bits_val(d, c + 10, 4) + 4;
        let c3 = c + 14;
        if tb - c3 < 3 * hclen {
            Err(InflateError::UnexpectedEof)
        } else {
            let cl = clen_after(d, c3, hclen as int);
            if !table_ok(cl) {
                Err(InflateError::InvalidCode)
            } else {
                let total = hlit + hdist;
                match read_lengths(cl, d, c3 + 3 * hclen, Seq::empty(), total as nat) {
                    Err(e) => Err(e),
                    Ok((ls, c4)) => {
                        let lit = ls.subrange(0, hlit as int);
                        let dl = ls.subrange(hlit as int, total as int);
                        if !table_ok(lit) {
                            Err(InflateError::InvalidCode)
                        } else if !table_ok(dl) {
                            Err(InflateError::InvalidCode)
                        } else {
                            Ok((lit, dl, c4))
                        }
                    },
                }
            }
        }
    }
}

fn read_clen(br: &mut BitReader, hclen: usize) -> (res: Result<[u8; 19], InflateError>)
    requires
        old(br).wf(),
        4 <= hclen <= 19,
    ensures
        final(br).wf(),
        final(br).data() == old(br).data(),
        final(br).cursor() >= old(br).cursor(),
        old(br).remaining_bits() < 3 * hclen ==> res == Err::<[u8; 19], InflateError>(InflateError::UnexpectedEof),
        old(br).remaining_bits() >= 3 * hclen ==> res is Ok && res->Ok_0@ == clen_after(old(br).data(), old(br).cursor(), hclen as int)
            && final(br).cursor() == old(br).cursor() + 3 * hclen,
{
    let ghost d = br.data();
    let ghost c3 = br.cursor();
    proof {
        br.lemma_cursor_nonneg();
    }
    let order = code_length_order();
    let mut clen: [u8; 19] = [0u8; 19];
    assert(clen@ =~= clen_after(d, c3, 0));
    let mut i: usize = 0;
    while i < hclen
        invariant
            br.wf(),
            br.data() == d,
            d == old(br).data(),
            c3 == old(br).cursor(),
            0 <= c3,
            i <= hclen,
            hclen <= 19,
            order@ == cl_order(),
            forall|j: int| 0 <= j < 19 ==> #[trigger] order@[j] < 19,
            br.cursor() == c3 + 3 * i,
            clen@ == clen_after(d, c3, i as int),
        decreases hclen - i,
    {
        let v = br.read_bits(3)?;
        proof {
            lemma2_to64();
            lemma_bits_val_bound(d, c3 + 3 * i, 3);
        }
        clen[order[i]] = v as u8;
        i += 1;
        assert(clen@ =~= clen_after(d, c3, i as int));
    }
    Ok(clen)
}

/// Decodes one code-length symbol and appends what it stands for.
fn read_length_symbol(br: &mut BitReader, clen_tab: &HuffmanTable, lengths: &mut Vec<u8>) -> (res: Result<(), InflateError>)
    requires
        old(br).wf(),
        clen_tab.wf(),
        old(lengths)@.len() <= 320,
    ensures
        final(br).wf(),
        final(br).data() == old(br).data(),
        final(br).cursor() >= old(br).cursor(),
        final(lengths)@.len() <= old(lengths)@.len() + 138,
        match huff_decode_spec(*clen_tab, old(br).data(), old(br).cursor()) {
            Err(e) => res == Err::<(), InflateError>(e),
            Ok((sym, c1)) => match length_step(sym, old(br).data(), c1, old(lengths)@) {
                Err(e) => res == Err::<(), InflateError>(e),
                Ok((a2, c2)) => res is Ok && final(lengths)@ == a2 && final(br).cursor() == c2,
            },
        },
{
    let ghost acc = lengths@;
    let sym = clen_tab.decode(br)?;
    proof {
        lemma2_to64();
    }
    if sym <= 15 {
        lengths.push(sym as u8);
    } else if sym == 16 {
        if lengths.len() == 0 {
            return Err(InflateError::InvalidCode);
        }
        let repeat = read_extra(br, 2)? + 3;
        let prev = lengths[lengths.len() - 1];
        let mut k: usize = 0;
        while k < repeat
            invariant
                k <= repeat,
                repeat <= 6,
                acc.len() > 0,
                prev == acc.last(),
                lengths@ == acc + Seq::new(k as nat, |j: int| acc.last()),
            decreases repeat - k,
        {
            lengths.push(prev);
            k += 1;
            assert(lengths@ =~= acc + Seq::new(k as nat, |j: int| acc.last()));
        }
    } else if sym == 17 || sym == 18 {
        let repeat = if sym == 17 {
            read_extra(br, 3)? + 3
        } else {
            read_extra(br, 7)? + 11
        };
        let mut k: usize = 0;
        while k < repeat
            invariant
                k <= repeat,
                repeat <= 138,
                lengths@ == acc + Seq::new(k as nat, |j: int| 0u8),
            decreases repeat - k,
        {
            lengths.push(0);
            k += 1;
            assert(lengths@ =~= acc + Seq::new(k as nat, |j: int| 0u8));
        }
    } else {
        return Err(InflateError::InvalidCode);
    }
    assert(sym <= 15 ==> lengths@ =~= acc.push(sym as u8));
    Ok(())
}

/// Reads code lengths with the code-length table until `total` are known.
fn read_code_lengths(br: &mut BitReader, clen_tab: &HuffmanTable, total: usize) -> (res: Result<Vec<u8>, InflateError>)
    requires
        old(br).wf(),
        clen_tab.wf(),
        total <= 320,
    ensures
        final(br).wf(),
        final(br).data() == old(br).data(),
        final(br).cursor() >= old(br).cursor(),
        match read_lengths_by(*clen_tab, old(br).data(), old(br).cursor(), Seq::empty(), total as nat) {
            Err(e) => res == Err::<Vec<u8>, InflateError>(e),
            Ok((ls, c)) => res matches Ok(v) && v@ == ls && final(br).cursor() == c,
        },
        res is Ok ==> res->Ok_0@.len() >= total,
{
    let mut lengths: Vec<u8> = Vec::new();
    while lengths.len() < total
        invariant
            br.wf(),
            clen_tab.wf(),
            br.data() == old(br).data(),
            br.cursor() >= old(br).cursor(),
            total <= 320,
            lengths@.len() <= total + 138,
            read_lengths_by(*clen_tab, br.data(), br.cursor(), lengths@, total as nat)
                == read_lengths_by(*clen_tab, old(br).data(), old(br).cursor(), Seq::empty(), total as nat),
        decreases br.remaining_bits(),
    {
        proof {
            br.lemma_remaining_nonneg();
            br.lemma_cursor_nonneg();
        }
        read_length_symbol(br, clen_tab, &mut lengths)?;
        proof {
            br.lemma_remaining_nonneg();
        }
    }
    Ok(lengths)
}

/// `read_lengths` with the decoding of a given table.
pub open spec fn read_lengths_by(t: HuffmanTable, d: Seq<u8>, c: int, acc: Seq<u8>, total: nat) -> Result<(Seq<u8>, int), InflateError>
    decreases d.len() * 8 - c,
{
    if acc.len() >= total {
        Ok((acc, c))
    } else {
        match huff_decode_spec(t, d, c) {
            Err(e) => Err(e),
            Ok((sym, c1)) => match length_step(sym, d, c1, acc) {
                Err(e) => Err(e),
                Ok((a2, c2)) => if c < c2 && c2 <= d.len() * 8 {
                    read_lengths_by(t, d, c2, a2, total)
                } else {
                    Err(InflateError::InvalidCode)
                },
            },
        }
    }
}

proof fn lemma_read_lengths_by(t: HuffmanTable, cl: Seq<u8>, d: Seq<u8>, c: int, acc: Seq<u8>, total: nat)
    requires
        t.wf(),
        table_of(t, cl),
        0 <= c,
    ensures
        read_lengths_by(t, d, c, acc, total) == read_lengths(cl, d, c, acc, total),
    decreases d.len() * 8 - c,
{
    lemma_table_decode(t, cl, d, c);
    if acc.len() < total {
        match huff_decode_spec(t, d, c) {
            Err(e) => {},
            Ok((sym, c1)) => match length_step(sym, d, c1, acc) {
                Err(e) => {},
                Ok((a2, c2)) => if c < c2 && c2 <= d.len() * 8 {
                    lemma_read_lengths_by(t, cl, d, c2, a2, total);
                },
            },
        }
    }
}

/// Dynamic block header: the code-length code, then the literal/length and
/// distance code lengths it encodes, made into tables.
fn decode_dynamic_tables(br: &mut BitReader) -> (res: Result<(HuffmanTable, HuffmanTable), InflateError>)
    requires
        old(br).wf(),
    ensures
        final(br).wf(),
        final(br).data() == old(br).data(),
        match dynamic_tables_spec(old(br).data(), old(br).cursor()) {
            Err(e) => res matches Err(x) && x == e,
            Ok((l, dl, c)) => res matches Ok(p) && table_of(p.0, l) && table_of(p.1, dl) && final(br).cursor() == c,
        },
        final(br).remaining_bits() <= old(br).remaining_bits(),
        res is Ok ==> res->Ok_0.0.wf() && res->Ok_0.1.wf(),
        res is Ok ==> final(br).remaining_bits() < old(br).remaining_bits(),
{
    proof {
        lemma2_to64();
        br.lemma_cursor_nonneg();
    }
    let ghost d = br.data();
    let ghost c0 = br.cursor();
    proof {
        reveal(dynamic_tables_spec);
        if d.len() * 8 - c0 >= 14 {
            lemma_bits_val_bound(d, c0, 5);
            lemma_bits_val_bound(d, c0 + 5, 5);
            lemma_bits_val_bound(d, c0 + 10, 4);
        }
    }
    if !br.has_bits(14) {
        return Err(InflateError::UnexpectedEof);
    }
    let hlit = br.read_bits(5)? as usize + 257;
    let hdist = br.read_bits(5)? as usize + 1;
    let hclen = br.read_bits(4)? as usize + 4;
    let clen = read_clen(br, hclen)?;
    let clen_tab = HuffmanTable::build(clen.as_slice())?;
    let total = hlit + hdist;
    let ghost c5 = br.cursor();
    proof {
        br.lemma_cursor_nonneg();
        lemma_read_lengths_by(clen_tab, clen@, d, c5, Seq::empty(), total as nat);
    }
    let mut lengths = read_code_lengths(br, &clen_tab, total)?;
    let ghost ls = lengths@;
    lengths.truncate(total);
    proof {
        assert(lengths@.subrange(0, hlit as int) =~= ls.subrange(0, hlit as int));
        assert(lengths@.subrange(hlit as int, total as int) =~= ls.subrange(hlit as int, total as int));
    }
    let litlen = HuffmanTable::build(vstd::slice::slice_subrange(lengths.as_slice(), 0, hlit))?;
    let dist = HuffmanTable::build(vstd::slice::slice_subrange(lengths.as_slice(), hlit, total))?;
    Ok((litlen, dist))
}

/// The fixed literal/length code lengths of RFC 1951 §3.2.6.
pub open spec fn fixed_lit_ls() -> Seq<u8> {
    Seq::new(288, |i: int| if i < 144 { 8u8 } else if i < 256 { 9u8 } else if i < 280 { 7u8 } else { 8u8 })
}

/// The fixed distance code lengths: thirty-two codes of five bits.
pub open spec fn fixed_dist_ls() -> Seq<u8> {
    Seq::new(32, |i: int| 5u8)
}

/// `block_step` with the tables that `lit_ls` and `dist_ls` make.
pub open spec fn block_step_model(lit_ls: Seq<u8>, dist_ls: Seq<u8>, d: Seq<u8>, c: int, out: Seq<u8>, max_out: int) -> BlockStep {
    match huff_model_decode(lit_ls, d, c) {
        Err(e) => BlockStep::Fail(e),
        Ok((sym, c1)) => {
            if sym < 256 {
                if out.len() >= max_out {
                    BlockStep::Fail(InflateError::OutputLimit)
                } else {
                    BlockStep::More(out.push(sym as u8), c1)
                }
            } else if sym == 256 {
                BlockStep::Done(out, c1)
            } else if sym <= 285 {
                let lb = length_base_table()[sym - 257];
                match extra_bits(d, c1, length_extra_table()[sym - 257]) {
                    None => BlockStep::Fail(InflateError::UnexpectedEof),
                    Some((lx, c2)) => match huff_model_decode(dist_ls, d, c2) {
                        Err(e) => BlockStep::Fail(e),
                        Ok((ds, c3)) => {
                            if ds >= 30 {
                                BlockStep::Fail(InflateError::InvalidCode)
                            } else {
                                match extra_bits(d, c3, dist_extra_table()[ds as int]) {
                                    None => BlockStep::Fail(InflateError::UnexpectedEof),
                                    Some((dx, c4)) => {
                                        let distance = dist_base_table()[ds as int] + dx;
                                        let length = lb + lx;
                                        if distance > out.len() {
                                            BlockStep::Fail(InflateError::InvalidCode)
                                        } else if out.len() + length > max_out {
                                            BlockStep::Fail(InflateError::OutputLimit)
                                        } else {
                                            BlockStep::More(copied(out, distance, length), c4)
                                        }
                                    },
                                }
                            }
                        },
                    },
                }
            } else {
                BlockStep::Fail(InflateError::InvalidCode)
            }
        },
    }
}

/// A Huffman-coded block with the codes that `lit_ls` and `dist_ls` give.
#[verifier::opaque]
pub open spec fn compressed_model(lit_ls: Seq<u8>, dist_ls: Seq<u8>, d: Seq<u8>, c: int, out: Seq<u8>, max_out: int)
    -> Result<(Seq<u8>, int), InflateError>
    decreases d.len() * 8 - c,
{
    match block_step_model(lit_ls, dist_ls, d, c, out, max_out) {
        BlockStep::Fail(e) => Err(e),
        BlockStep::Done(o, c1) => Ok((o, c1)),
        BlockStep::More(o, c1) => {
            if c < c1 && c1 <= d.len() * 8 {
                compressed_model(lit_ls, dist_ls, d, c1, o, max_out)
            } else {
                Err(InflateError::InvalidCode)
            }
        },
    }
}

proof fn lemma_compressed_model(lit: HuffmanTable, dist: HuffmanTable, lit_ls: Seq<u8>, dist_ls: Seq<u8>, d: Seq<u8>, c: int,
    out: Seq<u8>, max_out: int)
    requires
        lit.wf(),
        dist.wf(),
        table_of(lit, lit_ls),
        table_of(dist, dist_ls),
        0 <= c,
    ensures
        compressed_block_spec(lit, dist, d, c, out, max_out) == compressed_model(lit_ls, dist_ls, d, c, out, max_out),
    decreases d.len() * 8 - c,
{
    lemma_table_decode(lit, lit_ls, d, c);
    reveal(compressed_block_spec);
    reveal(compressed_model);
    match huff_decode_spec(lit, d, c) {
        Err(_) => {},
        Ok((sym, c1)) => {
            if 257 <= sym <= 285 {
                match extra_bits(d, c1, length_extra_table()[sym - 257]) {
                    None => {},
                    Some((lx, c2)) => {
                        lemma_table_decode(dist, dist_ls, d, c2);
                    },
                }
            }
        },
    }
    assert(block_step(lit, dist, d, c, out, max_out) == block_step_model(lit_ls, dist_ls, d, c, out, max_out));
    match block_step(lit, dist, d, c, out, max_out) {
        BlockStep::More(o, c1) => {
            if c < c1 && c1 <= d.len() * 8 {
                lemma_compressed_model(lit, dist, lit_ls, dist_ls, d, c1, o, max_out);
            }
        },
        _ => {},
    }
}

/// One block from bit `c` of `d` after output `out`: BFINAL, BTYPE, then a
/// stored, fixed-Huffman or dynamic-Huffman block; the output, the bit after
/// the block, and whether it was the last one.
#[verifier::opaque]
pub open spec fn block_spec(d: Seq<u8>, c: int, out: Seq<u8>, max_out: int) -> Result<(Seq<u8>, int, bool), InflateError> {
    if d.len() * 8 - c < 3 {
        Err(InflateError::UnexpectedEof)
    } else {
        let last = bits_val(d, c, 1) == 1;
        let btype = bits_val(d, c + 1, 2);
        let c2 = c + 3;
        if btype == 0 {
            match stored_block_spec(d, c2, out, max_out) {
                Err(e) => Err(e),
                Ok((o, c3)) => Ok((o, c3, last)),
            }
        } else if btype == 1 {
            if !table_ok(fixed_lit_ls()) || !table_ok(fixed_dist_ls()) {
                Err(InflateError::InvalidCode)
            } else {
                match compressed_model(fixed_lit_ls(), fixed_dist_ls(), d, c2, out, max_out) {
                    Err(e) => Err(e),
                    Ok((o, c3)) => Ok((o, c3, last)),
                }
            }
        } else if btype == 2 {
            match dynamic_tables_spec(d, c2) {
                Err(e) => Err(e),
                Ok((l, dl, c3)) => match compressed_model(l, dl, d, c3, out, max_out) {
                    Err(e) => Err(e),
                    Ok((o, c4)) => Ok((o, c4, last)),
                },
            }
        } else {
            Err(InflateError::InvalidBlockType)
        }
    }
}

/// Blocks from bit `c` until the one marked last.
#[verifier::opaque]
pub open spec fn blocks_spec(d: Seq<u8>, c: int, out: Seq<u8>, max_out: int) -> Result<(Seq<u8>, int), InflateError>
    decreases d.len() * 8 - c,
{
    match block_spec(d, c, out, max_out) {
        Err(e) => Err(e),
        Ok((o, c1, last)) => {
            if last {
                Ok((o, c1))
            } else if c < c1 && c1 <= d.len() * 8 {
                blocks_spec(d, c1, o, max_out)
            } else {
                Err(InflateError::InvalidCode)
            }
        },
    }
}

/// The big-endian Adler-32 that follows the deflate data ending at bit `c`
/// (from the next byte boundary).
pub open spec fn trailer_at(d: Seq<u8>, c: int) -> int {
    let p = byte_aligned(c) / 8;
    d[p] * 16777216 + d[p + 1] * 65536 + d[p + 2] * 256 + d[p + 3]
}

/// What inflating the zlib stream `src` into at most `max_out` bytes gives:
/// the header checks, the deflate blocks (RFC 1951) of what follows the two
/// header bytes, then the Adler-32 of the output against the trailer.
pub open spec fn inflate_spec(src: Seq<u8>, max_out: int) -> Result<Seq<u8>, InflateError> {
    if src.len() < 6 {
        Err(InflateError::TooSmall)
    } else if src[0] % 16 != 8 {
        Err(InflateError::UnsupportedMethod)
    } else if (src[0] * 256 + src[1]) % 31 != 0 {
        Err(InflateError::BadHeaderCheck)
    } else if (src[1] / 32) % 2 == 1 {
        Err(InflateError::PresetDictionary)
    } else {
        let d = src.subrange(2, src.len() as int);
        match blocks_spec(d, 0, Seq::empty(), max_out) {
            Err(e) => Err(e),
            Ok((out, c)) => {
                if d.len() * 8 - byte_aligned(c) < 32 {
                    Err(InflateError::UnexpectedEof)
                } else if trailer_at(d, c) != adler32_spec(out) {
                    Err(InflateError::ChecksumMismatch)
                } else {
                    Ok(out)
                }
            },
        }
    }
}

/// Fixed literal/length code lengths of RFC 1951 §3.2.6.
fn fixed_litlen_lengths() -> (v: Vec<u8>)
    ensures
        v@ == fixed_lit_ls(),
{
    let mut lens: Vec<u8> = Vec::new();
    let mut i: usize = 0;
    while i < 288
        invariant
            i <= 288,
            lens@ == fixed_lit_ls().take(i as int),
        decreases 288 - i,
    {
        let l: u8 = if i < 144 {
            8
        } else if i < 256 {
            9
        } else if i < 280 {
            7
        } else {
            8
        };
        lens.push(l);
        i += 1;
        assert(lens@ =~= fixed_lit_ls().take(i as int));
    }
    assert(fixed_lit_ls().take(288) =~= fixed_lit_ls());
    lens
}

/// Inflate a zlib stream into at most `max_out` bytes.
pub fn inflate_zlib(src: &[u8], max_out: usize) -> (res: Result<Vec<u8>, InflateError>)
    ensures
        match inflate_spec(src@, max_out as int) {
            Ok(o) => res is Ok && res->Ok_0@ == o,
            Err(e) => res == Err::<Vec<u8>, InflateError>(e),
        },
        src@.len() < 6 ==> res == Err::<Vec<u8>, InflateError>(InflateError::TooSmall),
        src@.len() >= 6 && src@[0] % 16 != 8 ==> res == Err::<Vec<u8>, InflateError>(
            InflateError::UnsupportedMethod,
        ),
        src@.len() >= 6 && src@[0] % 16 == 8 && (src@[0] * 256 + src@[1]) % 31 != 0 ==> res == Err::<
            Vec<u8>,
            InflateError,
        >(InflateError::BadHeaderCheck),
        src@.len() >= 6 && src@[0] % 16 == 8 && (src@[0] * 256 + src@[1]) % 31 == 0 && (src@[1]
            / 32) % 2 == 1 ==> res == Err::<Vec<u8>, InflateError>(InflateError::PresetDictionary),
        res is Ok ==> res->Ok_0@.len() <= max_out,
{
    if src.len() < 6 {
        return Err(InflateError::TooSmall);
    }
    let cmf = src[0];
    let flg = src[1];
    if cmf % 16 != 8 {
        return Err(InflateError::UnsupportedMethod);
    }
    let check = cmf as u32 * 256 + flg as u32;
    if check % 31 != 0 {
        return Err(InflateError::BadHeaderCheck);
    }
    if (flg / 32) % 2 == 1 {
        return Err(InflateError::PresetDictionary);
    }
    let ghost d = src@.subrange(2, src@.len() as int);
    let mut br = BitReader::new(vstd::slice::slice_subrange(src, 2, src.len()));
    let mut out: Vec<u8> = Vec::new();
    proof {
        lemma2_to64();
    }
    loop
        invariant_except_break
            blocks_spec(d, br.cursor(), out@, max_out as int) == blocks_spec(d, 0, Seq::empty(), max_out as int),
        invariant
            br.wf(),
            br.data() == d,
            d == src@.subrange(2, src@.len() as int),
            out@.len() <= max_out,
            src@.len() >= 6,
            src@[0] % 16 == 8,
            (src@[0] * 256 + src@[1]) % 31 == 0,
            (src@[1] / 32) % 2 == 0,
        ensures
            br.wf(),
            br.data() == d,
            out@.len() <= max_out,
            blocks_spec(d, 0, Seq::empty(), max_out as int) == Ok::<(Seq<u8>, int), InflateError>((out@, br.cursor())),
        decreases br.remaining_bits(),
    {
        proof {
            br.lemma_remaining_nonneg();
            br.lemma_cursor_nonneg();
            reveal(blocks_spec);
        }
        let last = decode_block(&mut br, &mut out, max_out)?;
        if last {
            break;
        }
    }
    let ghost c = br.cursor();
    br.align_to_byte();
    proof {
        reveal(blocks_spec);
        br.lemma_cursor_nonneg();
        let p = byte_aligned(c) / 8;
        if d.len() * 8 - byte_aligned(c) >= 32 {
            assert(8 * p == byte_aligned(c));
            lemma_bits_val_byte(d, p);
            lemma_bits_val_byte(d, p + 1);
            lemma_bits_val_byte(d, p + 2);
            lemma_bits_val_byte(d, p + 3);
            assert(8 * (p + 1) == byte_aligned(c) + 8);
            assert(8 * (p + 2) == byte_aligned(c) + 16);
            assert(8 * (p + 3) == byte_aligned(c) + 24);
        }
    }
    let a0 = br.read_bits(8)?;
    let a1 = br.read_bits(8)?;
    let a2 = br.read_bits(8)?;
    let a3 = br.read_bits(8)?;
    let expected = a0 * 16777216 + a1 * 65536 + a2 * 256 + a3;
    let got = adler32(out.as_slice());
    proof {
        assert(expected == trailer_at(d, c));
    }
    if expected != got {
        return Err(InflateError::ChecksumMismatch);
    }
    Ok(out)
}

/// One block (see `block_spec`); tells whether it was the last.
fn decode_block(br: &mut BitReader, out: &mut Vec<u8>, max_out: usize) -> (res: Result<bool, InflateError>)
    requires
        old(br).wf(),
        old(out)@.len() <= max_out,
    ensures
        final(br).wf(),
        final(br).data() == old(br).data(),
        final(out)@.len() <= max_out,
        final(br).cursor() >= old(br).cursor(),
        match block_spec(old(br).data(), old(br).cursor(), old(out)@, max_out as int) {
            Err(e) => res == Err::<bool, InflateError>(e),
            Ok((o, c, last)) => res == Ok::<bool, InflateError>(last) && final(out)@ == o && final(br).cursor() == c,
        },
        res is Ok ==> final(br).cursor() > old(br).cursor(),
{
    proof {
        lemma2_to64();
        br.lemma_cursor_nonneg();
    }
    let ghost d = br.data();
    let ghost c0 = br.cursor();
    proof {
        reveal(block_spec);
    }
    if !br.has_bits(3) {
        return Err(InflateError::UnexpectedEof);
    }
    proof {
        lemma_bits_val_bound(d, c0, 1);
        lemma_bits_val_bound(d, c0 + 1, 2);
    }
    let bfinal = br.read_bits(1)?;
    let btype = br.read_bits(2)?;
    if btype == 0 {
        decode_stored_block(br, out, max_out)?;
    } else if btype == 1 {
        let lens = fixed_litlen_lengths();
        let litlen = HuffmanTable::build(lens.as_slice())?;
        let dist_lens: [u8; 32] = [5u8; 32];
        assert(dist_lens@ =~= fixed_dist_ls());
        let dist = HuffmanTable::build(dist_lens.as_slice())?;
        proof {
            br.lemma_cursor_nonneg();
            lemma_compressed_model(litlen, dist, fixed_lit_ls(), fixed_dist_ls(), d, br.cursor(), out@, max_out as int);
        }
        decode_compressed_block(br, out, &litlen, &dist, max_out)?;
    } else if btype == 2 {
        let ghost c2 = br.cursor();
        let (litlen, dist) = decode_dynamic_tables(br)?;
        proof {
            br.lemma_cursor_nonneg();
            let (l, dl, c3) = dynamic_tables_spec(d, c2)->Ok_0;
            lemma_compressed_model(litlen, dist, l, dl, d, br.cursor(), out@, max_out as int);
        }
        decode_compressed_block(br, out, &litlen, &dist, max_out)?;
    } else {
        return Err(InflateError::InvalidBlockType);
    }
    Ok(bfinal == 1)
}

/// The span of lengths (or distances) a symbol with `e` extra bits covers.
pub open spec fn extra_span(e: int) -> int
    decreases e,
{
    if e <= 0 { 1 } else { 2 * extra_span(e - 1) }
}

/// The length symbols cover the match lengths of DEFLATE (RFC 1951, 3.2.5)
/// in order, without gap or overlap: symbol 257 starts at the shortest
/// match (3), each next symbol starts where the previous one's extra bits
/// end, and the last symbol, 285, needs no extra bits and stands for the
/// longest match, the one that symbol 284 reaches with all its extra bits
/// set.
pub proof fn law_length_codes_tile_match_lengths()
    ensures
        length_base_table().len() == 29,
        length_extra_table().len() == 29,
        length_base_table()[0] == 3,
        forall|i: int| 0 <= i < 27 ==> #[trigger] length_base_table()[i + 1]
            == length_base_table()[i] + extra_span(length_extra_table()[i]),
        length_extra_table()[28] == 0,
        length_base_table()[28] == length_base_table()[27] + extra_span(length_extra_table()[27]) - 1,
{
    reveal_with_fuel(extra_span, 6);
    let b = length_base_table();
    let e = length_extra_table();
    assert forall|i: int| 0 <= i < 27 implies #[trigger] b[i + 1] == b[i] + extra_span(e[i]) by {
        assert(extra_span(0) == 1 && extra_span(1) == 2 && extra_span(2) == 4 && extra_span(3) == 8
            && extra_span(4) == 16 && extra_span(5) == 32);
    }
    assert(extra_span(5) == 32);
}

/// The distance symbols cover the distances of DEFLATE in order, without gap
/// or overlap, from 1 up to the 32 KiB window.
pub proof fn law_distance_codes_tile_window()
    ensures
        dist_base_table().len() == 30,
        dist_extra_table().len() == 30,
        dist_base_table()[0] == 1,
        forall|i: int| 0 <= i < 29 ==> #[trigger] dist_base_table()[i + 1]
            == dist_base_table()[i] + extra_span(dist_extra_table()[i]),
        dist_base_table()[29] + extra_span(dist_extra_table()[29]) - 1 == 32768,
{
    reveal_with_fuel(extra_span, 15);
    let b = dist_base_table();
    let e = dist_extra_table();
    assert(extra_span(0) == 1 && extra_span(1) == 2 && extra_span(2) == 4 && extra_span(3) == 8
        && extra_span(4) == 16 && extra_span(5) == 32 && extra_span(6) == 64 && extra_span(7) == 128
        && extra_span(8) == 256 && extra_span(9) == 512 && extra_span(10) == 1024 && extra_span(11) == 2048
        && extra_span(12) == 4096 && extra_span(13) == 8192);
    assert forall|i: int| 0 <= i < 29 implies #[trigger] b[i + 1] == b[i] + extra_span(e[i]) by {
    }
}

} // verus!
