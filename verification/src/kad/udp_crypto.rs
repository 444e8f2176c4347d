//! aMule/iMule obfuscation of KAD datagrams: RC4 keyed by MD5 over either the
//! receiver's node identifier or its UDP verify key.

use vstd::prelude::*;
use crate::kad::codec::{le32, u32_le, get_u32_le, push_u32_le, push_bytes, lemma_le32_concat};
use crate::kad::id::KadId;
use crate::kad::md5::{md5, md5_spec};

verus! {

/// The RC4 state as mathematical values.
pub struct Rc4Model {
    pub s: Seq<u8>,
    pub i: u8,
    pub j: u8,
}

pub open spec fn swap_spec(s: Seq<u8>, a: int, b: int) -> Seq<u8> {
    s.update(a, s[b]).update(b, s[a])
}

/// Key scheduling after `n` of its 256 rounds: the permutation and `j`.
pub open spec fn ksa(key: Seq<u8>, n: nat) -> (Seq<u8>, u8)
    decreases n,
{
    if n == 0 {
        (Seq::new(256, |k: int| k as u8), 0u8)
    } else {
        let (s, j) = ksa(key, (n - 1) as nat);
        let i = n - 1;
        let j2 = ((j + s[i] + key[i % 16]) % 256) as u8;
        (swap_spec(s, i, j2 as int), j2)
    }
}

pub open spec fn rc4_init(key: Seq<u8>) -> Rc4Model {
    Rc4Model { s: ksa(key, 256).0, i: 0, j: 0 }
}

/// One step of the generator.
pub open spec fn rc4_step(st: Rc4Model) -> Rc4Model {
    let i = ((st.i + 1) % 256) as u8;
    let j = ((st.j + st.s[i as int]) % 256) as u8;
    Rc4Model { s: swap_spec(st.s, i as int, j as int), i, j }
}

/// The keystream byte produced by stepping from `st`.
pub open spec fn rc4_byte(st: Rc4Model) -> u8 {
    let n = rc4_step(st);
    n.s[((n.s[n.i as int] + n.s[n.j as int]) % 256) as int]
}

pub open spec fn rc4_advance(st: Rc4Model, n: nat) -> Rc4Model
    decreases n,
{
    if n == 0 {
        st
    } else {
        rc4_step(rc4_advance(st, (n - 1) as nat))
    }
}

/// The next `n` keystream bytes from `st`.
pub open spec fn keystream(st: Rc4Model, n: nat) -> Seq<u8> {
    Seq::new(n, |k: int| rc4_byte(rc4_advance(st, k as nat)))
}

/// Bytewise exclusive or of `a` with a keystream at least as long.
pub open spec fn xor_seq(a: Seq<u8>, ks: Seq<u8>) -> Seq<u8> {
    Seq::new(a.len(), |k: int| a[k] ^ ks[k])
}

/// RC4 stream cipher.
pub struct Rc4 {
    s: [u8; 256],
    i: u8,
    j: u8,
}

impl View for Rc4 {
    type V = Rc4Model;

    closed spec fn view(&self) -> Rc4Model {
        Rc4Model { s: self.s@, i: self.i, j: self.j }
    }
}

impl Rc4 {
    pub fn new(key: &[u8; 16]) -> (r: Self)
        ensures
            r@ == rc4_init(key@),
    {
        let mut s = [0u8; 256];
        let mut k: usize = 0;
        while k < 256
            invariant
                k <= 256,
                forall|t: int| 0 <= t < k ==> s@[t] == t as u8,
            decreases 256 - k,
        {
            s[k] = k as u8;
            k += 1;
        }
        assert(s@ =~= ksa(key@, 0).0);
        let mut j: u8 = 0;
        let mut i: usize = 0;
        while i < 256
            invariant
                i <= 256,
                (s@, j) == ksa(key@, i as nat),
            decreases 256 - i,
        {
            let kb = key[i % 16];
            let j2: u8 = j.wrapping_add(s[i]).wrapping_add(kb);
            let ghost prev = s@;
            let a = s[i];
            let b = s[j2 as usize];
            s[i] = b;
            s[j2 as usize] = a;
            assert(s@ =~= swap_spec(prev, i as int, j2 as int));
            j = j2;
            i += 1;
        }
        Rc4 { s, i: 0, j: 0 }
    }

    /// The next keystream byte.
    pub fn next(&mut self) -> (b: u8)
        ensures
            final(self)@ == rc4_step(old(self)@),
            b == rc4_byte(old(self)@),
    {
        self.i = self.i.wrapping_add(1);
        self.j = self.j.wrapping_add(self.s[self.i as usize]);
        let ii = self.i as usize;
        let jj = self.j as usize;
        let ghost prev = self.s@;
        let a = self.s[ii];
        let b = self.s[jj];
        self.s[ii] = b;
        self.s[jj] = a;
        assert(self.s@ =~= swap_spec(prev, ii as int, jj as int));
        let idx = self.s[ii].wrapping_add(self.s[jj]);
        self.s[idx as usize]
    }

    /// XOR `data` in place with the next `data.len()` keystream bytes.
    pub fn apply(&mut self, data: &mut Vec<u8>)
        ensures
            final(data)@ == xor_seq(old(data)@, keystream(old(self)@, old(data)@.len())),
            final(self)@ == rc4_advance(old(self)@, old(data)@.len()),
    {
        let ghost st0 = self@;
        let ghost d0 = data@;
        let n = data.len();
        let mut k: usize = 0;
        while k < n
            invariant
                k <= n,
                n == d0.len(),
                data@.len() == n,
                self@ == rc4_advance(st0, k as nat),
                forall|t: int| 0 <= t < k ==> data@[t] == d0[t] ^ rc4_byte(rc4_advance(st0, t as nat)),
                forall|t: int| k <= t < n ==> data@[t] == d0[t],
            decreases n - k,
        {
            let b = self.next();
            let v = data[k] ^ b;
            data.set(k, v);
            k += 1;
        }
        assert(data@ =~= xor_seq(d0, keystream(st0, d0.len())));
    }
}


pub const CRYPT_HEADER_WITHOUTPADDING: usize = 8;
pub const MAGICVALUE_UDP_SYNC_CLIENT: u32 = 0x395F_2EC1;

pub const OP_EDONKEYHEADER: u8 = 0x01;
pub const OP_EDONKEYPROT: u8 = 0x02;
pub const OP_PACKEDPROT: u8 = 0x03;
pub const OP_EMULEPROT: u8 = 0x04;
pub const OP_UDPRESERVEDPROT1: u8 = 0xA3;
pub const OP_UDPRESERVEDPROT2: u8 = 0xB2;
pub const OP_KADEMLIAHEADER: u8 = 0x05;
pub const OP_KADEMLIAPACKEDPROT: u8 = 0x06;

#[derive(Debug, Clone, PartialEq, Eq)]
pub enum UdpCryptoError {
    Random(String),
    InvalidPacket(String),
}

impl UdpCryptoError {
    /// The error's message.
    pub fn to_string(&self) -> (s: String)
        ensures
            match self {
                UdpCryptoError::Random(m) => s@ == m@,
                UdpCryptoError::InvalidPacket(m) => s@ == m@,
            },
    {
        match self {
            UdpCryptoError::Random(m) => m.clone(),
            UdpCryptoError::InvalidPacket(m) => m.clone(),
        }
    }
}

#[derive(Debug, Clone)]
pub struct DecryptedKad {
    pub payload: Vec<u8>,
    pub receiver_verify_key: u32,
    pub sender_verify_key: u32,
    pub was_obfuscated: bool,
}

/// Payload, receiver verify key, sender verify key, whether it was obfuscated.
pub type DecryptedModel = (Seq<u8>, u32, u32, bool);

pub open spec fn decrypted_view(d: DecryptedKad) -> DecryptedModel {
    (d.payload@, d.receiver_verify_key, d.sender_verify_key, d.was_obfuscated)
}

/// First bytes of unobfuscated eDonkey/KAD datagrams.
pub open spec fn is_plain_marker(b: u8) -> bool {
    b == OP_KADEMLIAHEADER || b == OP_KADEMLIAPACKEDPROT || b == OP_EMULEPROT
        || b == OP_PACKEDPROT || b == OP_EDONKEYPROT || b == OP_EDONKEYHEADER
        || b == OP_UDPRESERVEDPROT1 || b == OP_UDPRESERVEDPROT2
}

/// RC4 key for packets keyed by the receiver's node identifier.
pub open spec fn node_id_key(id: KadId, random_key_part: Seq<u8>) -> Seq<u8> {
    md5_spec(crate::kad::codec::id_wire(id) + random_key_part)
}

/// RC4 key for packets keyed by the receiver's verify key.
pub open spec fn receiver_key(verify_key: u32, random_key_part: Seq<u8>) -> Seq<u8> {
    md5_spec(u32_le(verify_key) + random_key_part)
}

/// `buf[3..]` with the keystream of `key` removed.
pub open spec fn unmask(buf: Seq<u8>, key: Seq<u8>) -> Seq<u8> {
    xor_seq(buf.subrange(3, buf.len() as int), keystream(rc4_init(key), (buf.len() - 3) as nat))
}

/// Opening an obfuscated datagram with one candidate key.
pub open spec fn open_spec(buf: Seq<u8>, key: Seq<u8>) -> Result<(Seq<u8>, u32, u32), Seq<char>> {
    if buf.len() < 16 {
        Err("obfuscated packet too short"@)
    } else {
        let d = unmask(buf, key);
        let pad = d[4] as int;
        if le32(d, 0) != MAGICVALUE_UDP_SYNC_CLIENT {
            Err("magic mismatch"@)
        } else if buf.len() < 16 + pad {
            Err("missing verify keys"@)
        } else {
            Ok((d.subrange(13 + pad, d.len() as int), le32(d, 5 + pad) as u32, le32(d, 9 + pad) as u32))
        }
    }
}

/// What `decrypt_kad_packet` yields, as values.
pub open spec fn decrypt_spec(buf: Seq<u8>, my_id: KadId, secret: u32, from_hash: u32) -> Result<DecryptedModel, Seq<char>> {
    if buf.len() <= 8 || is_plain_marker(buf[0]) {
        Ok((buf, 0u32, 0u32, false))
    } else {
        let rk = buf.subrange(1, 3);
        match open_spec(buf, node_id_key(my_id, rk)) {
            Ok(t) => Ok((t.0, t.1, t.2, true)),
            Err(_) => match open_spec(buf, receiver_key(udp_verify_key_spec(secret, from_hash), rk)) {
                Ok(t) => Ok((t.0, t.1, t.2, true)),
                Err(m) => Err(m),
            },
        }
    }
}

pub open spec fn udp_verify_key_spec(secret: u32, target_hash: u32) -> u32 {
    let h = md5_spec(u32_le(target_hash) + u32_le(secret));
    let x = (le32(h, 0) as u32) ^ (le32(h, 4) as u32) ^ (le32(h, 8) as u32) ^ (le32(h, 12) as u32);
    ((x % 0xFFFF_FFFE) + 1) as u32
}

/// iMule `CPrefs::GetUDPVerifyKey` over an I2P destination hash: MD5 of
/// `target(le) || secret(le)`, its four words xored, folded into 1..=0xFFFFFFFE.
pub fn udp_verify_key(kad_udp_key_secret: u32, target_hash: u32) -> (r: u32)
    ensures
        r == udp_verify_key_spec(kad_udp_key_secret, target_hash),
        1 <= r <= 0xFFFF_FFFE,
{
    let mut buf: Vec<u8> = Vec::new();
    push_u32_le(&mut buf, target_hash);
    push_u32_le(&mut buf, kad_udp_key_secret);
    let h = md5(buf.as_slice());
    let a = get_u32_le(&h, 0);
    let b = get_u32_le(&h, 4);
    let c = get_u32_le(&h, 8);
    let d = get_u32_le(&h, 12);
    ((a ^ b ^ c ^ d) % 0xFFFF_FFFE) + 1
}

fn invalid_packet(msg: &str) -> (e: UdpCryptoError)
    ensures
        e matches UdpCryptoError::InvalidPacket(m) && m@ == msg@,
{
    UdpCryptoError::InvalidPacket(String::from_str(msg))
}

fn array16(v: &[u8]) -> (out: [u8; 16])
    requires
        v@.len() == 16,
    ensures
        out@ == v@,
{
    let mut out = [0u8; 16];
    let mut i: usize = 0;
    while i < 16
        invariant
            i <= 16,
            v@.len() == 16,
            forall|j: int| 0 <= j < i ==> out@[j] == v@[j],
        decreases 16 - i,
    {
        out[i] = v[i];
        i += 1;
    }
    assert(out@ =~= v@);
    out
}

/// Removes the obfuscation with one candidate key.
fn decrypt_kad_with_key(buf: &[u8], key: &[u8; 16]) -> (r: Result<DecryptedKad, UdpCryptoError>)
    ensures
        match (r, open_spec(buf@, key@)) {
            (Ok(d), Ok(t)) => decrypted_view(d) == (t.0, t.1, t.2, true),
            (Err(UdpCryptoError::InvalidPacket(m)), Err(msg)) => m@ == msg,
            _ => false,
        },
{
    if buf.len() < CRYPT_HEADER_WITHOUTPADDING + 8 {
        return Err(invalid_packet("obfuscated packet too short"));
    }
    let mut rc4 = Rc4::new(key);
    let mut d = vstd::slice::slice_to_vec(vstd::slice::slice_subrange(buf, 3, buf.len()));
    rc4.apply(&mut d);
    proof {
        assert(d@ =~= unmask(buf@, key@));
    }
    let magic = get_u32_le(d.as_slice(), 0);
    if magic != MAGICVALUE_UDP_SYNC_CLIENT {
        return Err(invalid_packet("magic mismatch"));
    }
    let pad_len = d[4] as usize;
    let verify_off = CRYPT_HEADER_WITHOUTPADDING + pad_len;
    if buf.len() < verify_off + 8 {
        return Err(invalid_packet("missing verify keys"));
    }
    let receiver_verify_key = get_u32_le(d.as_slice(), 5 + pad_len);
    let sender_verify_key = get_u32_le(d.as_slice(), 9 + pad_len);
    let payload = vstd::slice::slice_to_vec(vstd::slice::slice_subrange(d.as_slice(), 13 + pad_len, d.len()));
    Ok(DecryptedKad { payload, receiver_verify_key, sender_verify_key, was_obfuscated: true })
}

fn try_decrypt_kad_with_node_id(buf: &[u8], my_kad_id: KadId, random_key_part: &[u8]) -> (r: Result<DecryptedKad, UdpCryptoError>)
    requires
        random_key_part@.len() == 2,
    ensures
        match (r, open_spec(buf@, node_id_key(my_kad_id, random_key_part@))) {
            (Ok(d), Ok(t)) => decrypted_view(d) == (t.0, t.1, t.2, true),
            (Err(UdpCryptoError::InvalidPacket(m)), Err(msg)) => m@ == msg,
            _ => false,
        },
{
    let mut key_data: Vec<u8> = Vec::new();
    let idb = my_kad_id.to_crypt_bytes();
    push_bytes(&mut key_data, idb.as_slice());
    push_bytes(&mut key_data, random_key_part);
    let key = md5(key_data.as_slice());
    decrypt_kad_with_key(buf, &key)
}

fn try_decrypt_kad_with_receiver_key(buf: &[u8], receiver_key_value: u32, random_key_part: &[u8]) -> (r: Result<DecryptedKad, UdpCryptoError>)
    requires
        random_key_part@.len() == 2,
    ensures
        match (r, open_spec(buf@, receiver_key(receiver_key_value, random_key_part@))) {
            (Ok(d), Ok(t)) => decrypted_view(d) == (t.0, t.1, t.2, true),
            (Err(UdpCryptoError::InvalidPacket(m)), Err(msg)) => m@ == msg,
            _ => false,
        },
{
    let mut key_data: Vec<u8> = Vec::new();
    push_u32_le(&mut key_data, receiver_key_value);
    push_bytes(&mut key_data, random_key_part);
    let key = md5(key_data.as_slice());
    decrypt_kad_with_key(buf, &key)
}

/// Receiver side: datagrams that look plain pass through; otherwise the
/// node-identifier key is tried, then the receiver-verify-key key.
/// `from_dest_hash` is iMule's `CI2PAddress::hashCode()` of the sender.
pub fn decrypt_kad_packet(
    buf: &[u8],
    my_kad_id: KadId,
    my_kad_udp_key_secret: u32,
    from_dest_hash: u32,
) -> (r: Result<DecryptedKad, UdpCryptoError>)
    ensures
        match (r, decrypt_spec(buf@, my_kad_id, my_kad_udp_key_secret, from_dest_hash)) {
            (Ok(d), Ok(t)) => decrypted_view(d) == t,
            (Err(UdpCryptoError::InvalidPacket(m)), Err(msg)) => m@ == msg,
            _ => false,
        },
{
    if buf.len() <= CRYPT_HEADER_WITHOUTPADDING || is_plain_marker_exec(buf[0]) {
        return Ok(DecryptedKad {
            payload: vstd::slice::slice_to_vec(buf),
            receiver_verify_key: 0,
            sender_verify_key: 0,
            was_obfuscated: false,
        });
    }
    let random_key_part = vstd::slice::slice_subrange(buf, 1, 3);
    match try_decrypt_kad_with_node_id(buf, my_kad_id, random_key_part) {
        Ok(d) => {
            return Ok(d);
        },
        Err(_) => {},
    }
    let receiver_key_value = udp_verify_key(my_kad_udp_key_secret, from_dest_hash);
    try_decrypt_kad_with_receiver_key(buf, receiver_key_value, random_key_part)
}

fn is_plain_marker_exec(b: u8) -> (r: bool)
    ensures
        r == is_plain_marker(b),
{
    b == OP_KADEMLIAHEADER || b == OP_KADEMLIAPACKEDPROT || b == OP_EMULEPROT
        || b == OP_PACKEDPROT || b == OP_EDONKEYPROT || b == OP_EDONKEYHEADER
        || b == OP_UDPRESERVEDPROT1 || b == OP_UDPRESERVEDPROT2
}


#[verifier::external_type_specification]
#[verifier::external_body]
pub struct ExRandomError(getrandom::Error);

/// `getrandom::getrandom`: fills the buffer from the operating system's
/// source. Only that the length stays the same is known of the outcome.
#[verifier::external_body]
pub(crate) fn fill_random(dest: &mut Vec<u8>) -> (r: Result<(), getrandom::Error>)
    ensures
        final(dest)@.len() == old(dest)@.len(),
{
    getrandom::getrandom(dest.as_mut_slice())
}

/// `Display` of `getrandom::Error`; its text is not stated.
#[verifier::external_body]
pub(crate) fn random_error_text(e: &getrandom::Error) -> String {
    e.to_string()
}

fn random_error(prefix: &str, e: &getrandom::Error) -> (r: UdpCryptoError)
    ensures
        r matches UdpCryptoError::Random(m) && prefix@.is_prefix_of(m@),
{
    let mut m = String::from_str(prefix);
    let t = random_error_text(e);
    m.append(t.as_str());
    UdpCryptoError::Random(m)
}

/// The marker a random byte gives: bit 0 clear (KAD), bit 1 telling
/// whether the receiver-key variant is used.
pub open spec fn marker_bits(b: u8, kad_recv_key_used: bool) -> u8 {
    let m = b & 0xFE;
    if kad_recv_key_used {
        (m & 0xFE) | 0x02
    } else {
        m & 0xFC
    }
}

/// A first byte the receiver recognises as an obfuscated KAD datagram.
pub open spec fn marker_ok(m: u8, kad_recv_key_used: bool) -> bool {
    &&& m & 1 == 0
    &&& (m & 2 == 2) == kad_recv_key_used
    &&& !is_plain_marker(m)
}

/// The marker made from one random byte, or `None` when it would look like
/// a plain protocol header.
pub fn marker_from_byte(b: u8, kad_recv_key_used: bool) -> (r: Option<u8>)
    ensures
        r == (if is_plain_marker(marker_bits(b, kad_recv_key_used)) {
            None
        } else {
            Some(marker_bits(b, kad_recv_key_used))
        }),
        r matches Some(m) ==> marker_ok(m, kad_recv_key_used),
{
    let mut m = b & 0xFE;
    m = if kad_recv_key_used {
        (m & 0xFE) | 0x02
    } else {
        m & 0xFC
    };
    assert((b & 0xFE) & 0xFC & 1 == 0 && (b & 0xFE) & 0xFC & 2 == 0
        && ((b & 0xFE) & 0xFE | 0x02) & 1 == 0 && ((b & 0xFE) & 0xFE | 0x02) & 2 == 2) by (bit_vector);
    if is_plain_marker_exec(m) {
        None
    } else {
        Some(m)
    }
}

/// Draws random bytes until one gives an acceptable marker (at most 128
/// tries, then 0).
pub fn choose_semi_random_marker(kad_recv_key_used: bool) -> (r: Result<u8, UdpCryptoError>)
    ensures
        r matches Ok(m) ==> marker_ok(m, kad_recv_key_used) || m == 0,
        r matches Err(e) ==> e is Random,
{
    let mut tries: usize = 0;
    while tries < 128
        decreases 128 - tries,
    {
        let mut b: Vec<u8> = vec![0u8];
        match fill_random(&mut b) {
            Ok(()) => {},
            Err(e) => {
                return Err(random_error("failed generating marker byte: ", &e));
            },
        }
        match marker_from_byte(b[0], kad_recv_key_used) {
            Some(m) => {
                return Ok(m);
            },
            None => {},
        }
        tries += 1;
    }
    Ok(0x00)
}

/// The cleartext that follows the marker and random key part: magic value,
/// zero padding length, both verify keys, payload.
pub open spec fn sealed_plaintext(plain: Seq<u8>, receiver_verify_key: u32, sender_verify_key: u32) -> Seq<u8> {
    u32_le(MAGICVALUE_UDP_SYNC_CLIENT) + seq![0u8] + u32_le(receiver_verify_key) + u32_le(sender_verify_key) + plain
}

/// An obfuscated datagram as the sender lays it out.
pub open spec fn seal_spec(
    plain: Seq<u8>,
    key: Seq<u8>,
    marker: u8,
    random_key_part: Seq<u8>,
    receiver_verify_key: u32,
    sender_verify_key: u32,
) -> Seq<u8> {
    let c = sealed_plaintext(plain, receiver_verify_key, sender_verify_key);
    seq![marker] + random_key_part + xor_seq(c, keystream(rc4_init(key), c.len()))
}

/// Lays out an obfuscated datagram for given key, marker and random key part.
pub fn seal_kad_packet(
    plain: &[u8],
    key: &[u8; 16],
    marker: u8,
    random_key_part: &[u8],
    receiver_verify_key: u32,
    sender_verify_key: u32,
) -> (out: Vec<u8>)
    requires
        random_key_part@.len() == 2,
    ensures
        out@ == seal_spec(plain@, key@, marker, random_key_part@, receiver_verify_key, sender_verify_key),
{
    let mut body: Vec<u8> = Vec::new();
    push_u32_le(&mut body, MAGICVALUE_UDP_SYNC_CLIENT);
    body.push(0u8);
    push_u32_le(&mut body, receiver_verify_key);
    push_u32_le(&mut body, sender_verify_key);
    push_bytes(&mut body, plain);
    assert(body@ =~= sealed_plaintext(plain@, receiver_verify_key, sender_verify_key));
    let mut rc4 = Rc4::new(key);
    rc4.apply(&mut body);
    let mut out: Vec<u8> = Vec::new();
    out.push(marker);
    push_bytes(&mut out, random_key_part);
    push_bytes(&mut out, body.as_slice());
    assert(out@ =~= seal_spec(plain@, key@, marker, random_key_part@, receiver_verify_key, sender_verify_key));
    out
}

/// Sender side, keyed by the receiver's node identifier: MD5 of its wire
/// bytes and two random bytes.
pub fn encrypt_kad_packet(
    plain: &[u8],
    target_kad_id: KadId,
    receiver_verify_key: u32,
    sender_verify_key: u32,
) -> (r: Result<Vec<u8>, UdpCryptoError>)
    ensures
        r matches Ok(out) ==> ({
            let rk = out@.subrange(1, 3);
            &&& out@.len() == 16 + plain@.len()
            &&& (marker_ok(out@[0], false) || out@[0] == 0)
            &&& out@ == seal_spec(plain@, node_id_key(target_kad_id, rk), out@[0], rk, receiver_verify_key, sender_verify_key)
        }),
        r matches Err(e) ==> e is Random,
{
    let mut random_key_part: Vec<u8> = vec![0u8, 0u8];
    match fill_random(&mut random_key_part) {
        Ok(()) => {},
        Err(e) => {
            return Err(random_error("failed to generate random key part: ", &e));
        },
    }
    let mut key_data: Vec<u8> = Vec::new();
    let idb = target_kad_id.to_crypt_bytes();
    push_bytes(&mut key_data, idb.as_slice());
    push_bytes(&mut key_data, random_key_part.as_slice());
    let key = md5(key_data.as_slice());
    let marker = choose_semi_random_marker(false)?;
    let out = seal_kad_packet(plain, &key, marker, random_key_part.as_slice(), receiver_verify_key, sender_verify_key);
    assert(out@.subrange(1, 3) =~= random_key_part@);
    Ok(out)
}

/// Sender side keyed by the receiver verify key (used when the receiver's
/// node identifier is unknown, e.g. for `HELLO_RES_ACK`).
pub fn encrypt_kad_packet_with_receiver_key(
    plain: &[u8],
    receiver_verify_key: u32,
    sender_verify_key: u32,
) -> (r: Result<Vec<u8>, UdpCryptoError>)
    ensures
        r matches Ok(out) ==> ({
            let rk = out@.subrange(1, 3);
            &&& out@.len() == 16 + plain@.len()
            &&& (marker_ok(out@[0], true) || out@[0] == 0)
            &&& out@ == seal_spec(plain@, receiver_key(receiver_verify_key, rk), out@[0], rk, receiver_verify_key, sender_verify_key)
        }),
        r matches Err(e) ==> e is Random,
{
    let mut random_key_part: Vec<u8> = vec![0u8, 0u8];
    match fill_random(&mut random_key_part) {
        Ok(()) => {},
        Err(e) => {
            return Err(random_error("failed to generate random key part: ", &e));
        },
    }
    let mut key_data: Vec<u8> = Vec::new();
    push_u32_le(&mut key_data, receiver_verify_key);
    push_bytes(&mut key_data, random_key_part.as_slice());
    let key = md5(key_data.as_slice());
    let marker = choose_semi_random_marker(true)?;
    let out = seal_kad_packet(plain, &key, marker, random_key_part.as_slice(), receiver_verify_key, sender_verify_key);
    assert(out@.subrange(1, 3) =~= random_key_part@);
    Ok(out)
}


/// Exclusive or with the same keystream twice gives the data back: RC4
/// decryption is RC4 encryption under the same key.
pub proof fn law_xor_keystream_involutive(data: Seq<u8>, ks: Seq<u8>)
    requires
        ks.len() >= data.len(),
    ensures
        xor_seq(xor_seq(data, ks), ks) == data,
{
    assert forall|k: int| 0 <= k < data.len() implies #[trigger] xor_seq(xor_seq(data, ks), ks)[k] == data[k] by {
        let a = data[k];
        let b = ks[k];
        assert((a ^ b) ^ b == a) by (bit_vector);
    }
    assert(xor_seq(xor_seq(data, ks), ks) =~= data);
}

/// Opening a sealed datagram with the key it was sealed with gives back the
/// payload and both verify keys.
pub proof fn lemma_open_seal(
    plain: Seq<u8>,
    key: Seq<u8>,
    marker: u8,
    rk: Seq<u8>,
    rvk: u32,
    svk: u32,
)
    requires
        rk.len() == 2,
    ensures
        ({
            let buf = seal_spec(plain, key, marker, rk, rvk, svk);
            &&& buf.len() == 16 + plain.len()
            &&& buf[0] == marker
            &&& buf.subrange(1, 3) == rk
            &&& open_spec(buf, key) == Ok::<(Seq<u8>, u32, u32), Seq<char>>((plain, rvk, svk))
        }),
{
    let c = sealed_plaintext(plain, rvk, svk);
    let ks = keystream(rc4_init(key), c.len());
    let buf = seal_spec(plain, key, marker, rk, rvk, svk);
    assert(buf.subrange(1, 3) =~= rk);
    assert(buf.subrange(3, buf.len() as int) =~= xor_seq(c, ks));
    law_xor_keystream_involutive(c, ks);
    let d = unmask(buf, key);
    assert(d =~= c);
    let e = Seq::<u8>::empty();
    assert(c =~= e + u32_le(MAGICVALUE_UDP_SYNC_CLIENT) + (seq![0u8] + u32_le(rvk) + u32_le(svk) + plain));
    lemma_le32_concat(e, MAGICVALUE_UDP_SYNC_CLIENT, seq![0u8] + u32_le(rvk) + u32_le(svk) + plain);
    assert(c =~= (u32_le(MAGICVALUE_UDP_SYNC_CLIENT) + seq![0u8]) + u32_le(rvk) + (u32_le(svk) + plain));
    lemma_le32_concat(u32_le(MAGICVALUE_UDP_SYNC_CLIENT) + seq![0u8], rvk, u32_le(svk) + plain);
    assert(c =~= (u32_le(MAGICVALUE_UDP_SYNC_CLIENT) + seq![0u8] + u32_le(rvk)) + u32_le(svk) + plain);
    lemma_le32_concat(u32_le(MAGICVALUE_UDP_SYNC_CLIENT) + seq![0u8] + u32_le(rvk), svk, plain);
    assert(d[4] == 0);
    assert(d.subrange(13, d.len() as int) =~= plain);
}

/// A datagram sealed under the receiver's node-identifier key, with a marker
/// that does not look like a plain header, decrypts to its payload and keys.
pub proof fn law_decrypt_node_id_seal(
    plain: Seq<u8>,
    my_id: KadId,
    secret: u32,
    from_hash: u32,
    marker: u8,
    rk: Seq<u8>,
    rvk: u32,
    svk: u32,
)
    requires
        rk.len() == 2,
        !is_plain_marker(marker),
    ensures
        decrypt_spec(seal_spec(plain, node_id_key(my_id, rk), marker, rk, rvk, svk), my_id, secret, from_hash)
            == Ok::<DecryptedModel, Seq<char>>((plain, rvk, svk, true)),
{
    lemma_open_seal(plain, node_id_key(my_id, rk), marker, rk, rvk, svk);
}

/// A datagram sealed under the key derived from the receiver's verify key
/// decrypts to its payload and keys, unless it also happens to open under
/// the node-identifier key, which is tried first.
pub proof fn law_decrypt_receiver_key_seal(
    plain: Seq<u8>,
    my_id: KadId,
    secret: u32,
    from_hash: u32,
    marker: u8,
    rk: Seq<u8>,
    rvk: u32,
    svk: u32,
)
    requires
        rk.len() == 2,
        !is_plain_marker(marker),
        open_spec(
            seal_spec(plain, receiver_key(udp_verify_key_spec(secret, from_hash), rk), marker, rk, rvk, svk),
            node_id_key(my_id, rk),
        ) is Err,
    ensures
        decrypt_spec(
            seal_spec(plain, receiver_key(udp_verify_key_spec(secret, from_hash), rk), marker, rk, rvk, svk),
            my_id,
            secret,
            from_hash,
        ) == Ok::<DecryptedModel, Seq<char>>((plain, rvk, svk, true)),
{
    lemma_open_seal(plain, receiver_key(udp_verify_key_spec(secret, from_hash), rk), marker, rk, rvk, svk);
}

/// Every marker the sender can choose is read as obfuscated by the receiver.
pub proof fn law_markers_are_not_plain(m: u8, kad_recv_key_used: bool)
    requires
        marker_ok(m, kad_recv_key_used) || m == 0,
    ensures
        !is_plain_marker(m),
{
}

} // verus!
