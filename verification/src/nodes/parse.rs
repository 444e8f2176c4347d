//! eMule-style IPv4 `nodes.dat` (version 2): 34-byte contacts.

use vstd::prelude::*;
use crate::kad::codec::{le16, le32, le64, get_u16_le, get_u32_le, get_u64_le};
use crate::text::{decimal, decimal_string};

verus! {

#[derive(Debug, Clone, Copy)]
pub struct KadNode {
    pub node_id: [u8; 16],
    /// IPv4 address octets, most significant first.
    pub ip: [u8; 4],
    pub udp_port: u16,
    pub tcp_port: u16,
    pub kad_version: u8,
    pub kad_udp_key: u64,
    pub verified: bool,
}

pub struct KadNodeView {
    pub node_id: Seq<u8>,
    pub ip: Seq<u8>,
    pub udp_port: u16,
    pub tcp_port: u16,
    pub kad_version: u8,
    pub kad_udp_key: u64,
    pub verified: bool,
}

impl View for KadNode {
    type V = KadNodeView;

    open spec fn view(&self) -> KadNodeView {
        KadNodeView {
            node_id: self.node_id@,
            ip: self.ip@,
            udp_port: self.udp_port,
            tcp_port: self.tcp_port,
            kad_version: self.kad_version,
            kad_udp_key: self.kad_udp_key,
            verified: self.verified,
        }
    }
}

#[derive(Debug, Clone, PartialEq, Eq, Structural)]
pub enum KadNodesDatError {
    TooSmall { len: usize },
    BadMagic { magic: u32 },
    UnsupportedVersion { version: u32 },
    Truncated { needed: u64, count: u32, len: usize },
}

impl KadNodesDatError {
    pub open spec fn message_spec(&self) -> Seq<char> {
        match *self {
            KadNodesDatError::TooSmall { len } => "nodes.dat too small: "@ + decimal(len as nat) + " bytes"@,
            KadNodesDatError::BadMagic { magic } => "unexpected nodes.dat header (magic="@ + decimal(magic as nat)
                + "); expected v2 (magic=0)"@,
            KadNodesDatError::UnsupportedVersion { version } => "unsupported nodes.dat version "@ + decimal(version as nat)
                + "; expected 2"@,
            KadNodesDatError::Truncated { needed, count, len } => "nodes.dat truncated: expected at least "@
                + decimal(needed as nat) + " bytes for "@ + decimal(count as nat) + " entries, got "@ + decimal(len as nat),
        }
    }

    pub fn to_string(&self) -> (s: String)
        ensures
            s@ == self.message_spec(),
    {
        let mut s: String;
        match self {
            KadNodesDatError::TooSmall { len } => {
                s = String::from_str("nodes.dat too small: ");
                s.append(decimal_string(*len as u64).as_str());
                s.append(" bytes");
            },
            KadNodesDatError::BadMagic { magic } => {
                s = String::from_str("unexpected nodes.dat header (magic=");
                s.append(decimal_string(*magic as u64).as_str());
                s.append("); expected v2 (magic=0)");
            },
            KadNodesDatError::UnsupportedVersion { version } => {
                s = String::from_str("unsupported nodes.dat version ");
                s.append(decimal_string(*version as u64).as_str());
                s.append("; expected 2");
            },
            KadNodesDatError::Truncated { needed, count, len } => {
                s = String::from_str("nodes.dat truncated: expected at least ");
                s.append(decimal_string(*needed).as_str());
                s.append(" bytes for ");
                s.append(decimal_string(*count as u64).as_str());
                s.append(" entries, got ");
                s.append(decimal_string(*len as u64).as_str());
            },
        }
        s
    }
}

/// Addresses that cannot be a public KAD bootstrap contact: 0/8, loopback,
/// multicast and reserved, and the private and link-local ranges.
pub open spec fn routable_public(ip: Seq<u8>) -> bool {
    let a = ip[0];
    let b = ip[1];
    !(a == 0 || a == 127 || a >= 224 || a == 10 || (a == 172 && 16 <= b <= 31) || (a == 192 && b == 168)
        || (a == 169 && b == 254))
}

pub fn is_routable_public_ipv4(ip: [u8; 4]) -> (r: bool)
    ensures
        r == routable_public(ip@),
{
    let a = ip[0];
    let b = ip[1];
    if a == 0 || a == 127 {
        return false;
    }
    if a >= 224 {
        return false;
    }
    if a == 10 {
        return false;
    }
    if a == 172 && 16 <= b && b <= 31 {
        return false;
    }
    if a == 192 && b == 168 {
        return false;
    }
    if a == 169 && b == 254 {
        return false;
    }
    true
}

/// The address bytes as stored, unless only their reverse is routable.
pub open spec fn ip_heuristic(b: Seq<u8>) -> Seq<u8> {
    let as_is = seq![b[0], b[1], b[2], b[3]];
    let reversed = seq![b[3], b[2], b[1], b[0]];
    if !routable_public(as_is) && routable_public(reversed) {
        reversed
    } else {
        as_is
    }
}

pub fn parse_ip_heuristic(b: &[u8]) -> (ip: [u8; 4])
    requires
        b@.len() >= 4,
    ensures
        ip@ == ip_heuristic(b@),
{
    let ip_a: [u8; 4] = [b[0], b[1], b[2], b[3]];
    let ip_b: [u8; 4] = [b[3], b[2], b[1], b[0]];
    let ra = is_routable_public_ipv4(ip_a);
    let rb = is_routable_public_ipv4(ip_b);
    assert(ip_a@ =~= seq![b@[0], b@[1], b@[2], b@[3]]);
    assert(ip_b@ =~= seq![b@[3], b@[2], b@[1], b@[0]]);
    if !ra && rb {
        ip_b
    } else {
        ip_a
    }
}

/// The contact stored in the 34 bytes at `off`. The address is taken from
/// the entry's first four bytes.
pub open spec fn contact_at(b: Seq<u8>, off: int) -> KadNodeView {
    KadNodeView {
        node_id: b.subrange(off, off + 16),
        ip: ip_heuristic(b.subrange(off, off + 34)),
        udp_port: le16(b, off + 20) as u16,
        tcp_port: le16(b, off + 22) as u16,
        kad_version: b[off + 24],
        kad_udp_key: le64(b, off + 25) as u64,
        verified: b[off + 33] != 0,
    }
}

pub fn parse_v2_contact(buf: &[u8]) -> (n: KadNode)
    requires
        buf@.len() >= 34,
    ensures
        n@ == contact_at(buf@, 0),
{
    let node_id: [u8; 16] = [
        buf[0], buf[1], buf[2], buf[3], buf[4], buf[5], buf[6], buf[7],
        buf[8], buf[9], buf[10], buf[11], buf[12], buf[13], buf[14], buf[15],
    ];
    assert(node_id@ =~= buf@.subrange(0, 16));
    let ip = parse_ip_heuristic(buf);
    assert(buf@.subrange(0, 34).subrange(0, 4) =~= buf@.subrange(0, 4));
    let udp_port = get_u16_le(buf, 20);
    let tcp_port = get_u16_le(buf, 22);
    let kad_version = buf[24];
    let kad_udp_key = get_u64_le(buf, 25);
    let verified = buf[33] != 0;
    proof {
        let w = buf@.subrange(0, 34);
        assert(ip_heuristic(w) == ip_heuristic(buf@));
    }
    KadNode { node_id, ip, udp_port, tcp_port, kad_version, kad_udp_key, verified }
}

pub open spec fn kad_nodes_spec(b: Seq<u8>) -> Result<Seq<KadNodeView>, KadNodesDatError> {
    let n = b.len();
    if n < 12 {
        Err(KadNodesDatError::TooSmall { len: n as usize })
    } else if le32(b, 0) != 0 {
        Err(KadNodesDatError::BadMagic { magic: le32(b, 0) as u32 })
    } else if le32(b, 4) != 2 {
        Err(KadNodesDatError::UnsupportedVersion { version: le32(b, 4) as u32 })
    } else {
        let count = le32(b, 8);
        if n < 12 + count * 34 {
            Err(KadNodesDatError::Truncated { needed: (12 + count * 34) as u64, count: count as u32, len: n as usize })
        } else {
            Ok(Seq::new(count as nat, |i: int| contact_at(b, 12 + 34 * i)))
        }
    }
}

/// Parses an eMule version 2 `nodes.dat` image into its contacts.
pub fn parse_kad_nodes_dat(bytes: &[u8]) -> (r: Result<Vec<KadNode>, KadNodesDatError>)
    ensures
        match r {
            Ok(v) => kad_nodes_spec(bytes@) == Ok::<Seq<KadNodeView>, KadNodesDatError>(v@.map_values(|n: KadNode| n@)),
            Err(e) => kad_nodes_spec(bytes@) == Err::<Seq<KadNodeView>, KadNodesDatError>(e),
        },
{
    if bytes.len() < 12 {
        return Err(KadNodesDatError::TooSmall { len: bytes.len() });
    }
    let magic = get_u32_le(bytes, 0);
    let version = get_u32_le(bytes, 4);
    let count = get_u32_le(bytes, 8);
    if magic != 0 {
        return Err(KadNodesDatError::BadMagic { magic });
    }
    if version != 2 {
        return Err(KadNodesDatError::UnsupportedVersion { version });
    }
    let needed: u64 = 12 + (count as u64) * 34;
    if (bytes.len() as u64) < needed {
        return Err(KadNodesDatError::Truncated { needed, count, len: bytes.len() });
    }
    let mut nodes: Vec<KadNode> = Vec::new();
    let mut off: usize = 12;
    let mut k: u32 = 0;
    let blen = bytes.len();
    while k < count
        invariant
            k <= count,
            off == 12 + 34 * k,
            blen == bytes@.len(),
            12 + 34 * count <= blen,
            nodes@.map_values(|n: KadNode| n@) == Seq::new(k as nat, |i: int| contact_at(bytes@, 12 + 34 * i)),
        decreases count - k,
    {
        let entry = vstd::slice::slice_subrange(bytes, off, off + 34);
        let n = parse_v2_contact(entry);
        proof {
            let e = entry@;
            assert(e.subrange(0, 16) =~= bytes@.subrange(off as int, off + 16));
            assert(e.subrange(0, 34) =~= bytes@.subrange(off as int, off + 34));
            assert(e[24] == bytes@[off + 24]);
            assert(e[33] == bytes@[off + 33]);
            assert(le16(e, 20) == le16(bytes@, off + 20));
            assert(le16(e, 22) == le16(bytes@, off + 22));
            assert(le64(e, 25) == le64(bytes@, off + 25));
            assert(n@ == contact_at(bytes@, off as int));
        }
        let ghost before = nodes@;
        nodes.push(n);
        proof {
            assert(nodes@.map_values(|n: KadNode| n@) =~= before.map_values(|n: KadNode| n@).push(n@));
            assert(nodes@.map_values(|n: KadNode| n@) =~= Seq::new((k + 1) as nat, |i: int| contact_at(bytes@, 12 + 34 * i)));
        }
        off += 34;
        k += 1;
    }
    Ok(nodes)
}

} // verus!
