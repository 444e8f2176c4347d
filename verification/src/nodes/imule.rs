//! iMule/aMule I2P-only `nodes.dat`.
//!
//! Version 2 layout (iMule `CRoutingZone::WriteFile`, `CContact::WriteToFile`):
//! u32 magic 0, u32 version 2, u32 count, then per contact: u8 kad version,
//! u128 client id (eMule word order), 387 bytes UDP destination, u32 UDP key,
//! u32 UDP key "ip" (the destination hash), u8 verified.
//! The bootstrap variant starts with the count and carries only the first
//! three fields of each contact.

use vstd::prelude::*;
use crate::i2p::b64::{b64_spec, encode as b64_encode};
use crate::kad::codec::{
    le32, u32_le, id_at, get_u32_le, get_kad_id, push_u32_le, push_bytes, push_kad_id,
    lemma_u32_le_roundtrip, lemma_le32_shift,
};
use crate::kad::id::{KadId, crypt_order, lemma_crypt_order_involutive};
use crate::text::{decimal, decimal_string};

verus! {

pub const V2_ENTRY_LEN: usize = 413;
pub const BOOTSTRAP_ENTRY_LEN: usize = 404;

#[derive(Debug, Clone)]
pub struct ImuleNode {
    pub kad_version: u8,
    pub client_id: [u8; 16],
    pub udp_dest: [u8; 387],
    pub udp_key: u32,
    pub udp_key_ip: u32,
    pub verified: bool,
}

pub struct ImuleNodeView {
    pub kad_version: u8,
    pub client_id: Seq<u8>,
    pub udp_dest: Seq<u8>,
    pub udp_key: u32,
    pub udp_key_ip: u32,
    pub verified: bool,
}

impl View for ImuleNode {
    type V = ImuleNodeView;

    open spec fn view(&self) -> ImuleNodeView {
        ImuleNodeView {
            kad_version: self.kad_version,
            client_id: self.client_id@,
            udp_dest: self.udp_dest@,
            udp_key: self.udp_key,
            udp_key_ip: self.udp_key_ip,
            verified: self.verified,
        }
    }
}

pub open spec fn node_wf(n: ImuleNodeView) -> bool {
    n.client_id.len() == 16 && n.udp_dest.len() == 387
}

pub open spec fn nodes_view(v: Seq<ImuleNode>) -> Seq<ImuleNodeView> {
    v.map_values(|n: ImuleNode| n@)
}

#[derive(Debug, Clone, PartialEq, Eq)]
pub enum NodesDatError {
    TooSmall { len: usize },
    HeaderTooSmall { len: usize },
    BadMagic { magic: u32 },
    UnsupportedVersion { version: u32 },
    Truncated { needed: u64, count: u32, len: usize },
    BootstrapTruncated { needed: u64, count: u32, len: usize },
    TooManyNodes { nodes: usize },
}

impl NodesDatError {
    pub open spec fn message_spec(&self) -> Seq<char> {
        match *self {
            NodesDatError::TooSmall { len } => "nodes.dat too small: "@ + decimal(len as nat) + " bytes"@,
            NodesDatError::HeaderTooSmall { len } => "nodes.dat v2 header too small: "@ + decimal(len as nat) + " bytes"@,
            NodesDatError::BadMagic { magic } => "unexpected nodes.dat magic="@ + decimal(magic as nat) + ", expected 0"@,
            NodesDatError::UnsupportedVersion { version } => "unsupported nodes.dat version="@ + decimal(version as nat) + ", expected 2"@,
            NodesDatError::Truncated { needed, count, len } => "nodes.dat truncated: expected at least "@
                + decimal(needed as nat) + " bytes for "@ + decimal(count as nat) + " entries, got "@ + decimal(len as nat),
            NodesDatError::BootstrapTruncated { needed, count, len } => "bootstrap nodes.dat truncated: expected at least "@
                + decimal(needed as nat) + " bytes for "@ + decimal(count as nat) + " entries, got "@ + decimal(len as nat),
            NodesDatError::TooManyNodes { nodes } => "too many nodes to encode: "@ + decimal(nodes as nat),
        }
    }

    /// The error's message.
    pub fn to_string(&self) -> (s: String)
        ensures
            s@ == self.message_spec(),
    {
        let mut s: String;
        match self {
            NodesDatError::TooSmall { len } => {
                s = String::from_str("nodes.dat too small: ");
                s.append(decimal_string(*len as u64).as_str());
                s.append(" bytes");
            },
            NodesDatError::HeaderTooSmall { len } => {
                s = String::from_str("nodes.dat v2 header too small: ");
                s.append(decimal_string(*len as u64).as_str());
                s.append(" bytes");
            },
            NodesDatError::BadMagic { magic } => {
                s = String::from_str("unexpected nodes.dat magic=");
                s.append(decimal_string(*magic as u64).as_str());
                s.append(", expected 0");
            },
            NodesDatError::UnsupportedVersion { version } => {
                s = String::from_str("unsupported nodes.dat version=");
                s.append(decimal_string(*version as u64).as_str());
                s.append(", expected 2");
            },
            NodesDatError::Truncated { needed, count, len } => {
                s = String::from_str("nodes.dat truncated: expected at least ");
                s.append(decimal_string(*needed).as_str());
                s.append(" bytes for ");
                s.append(decimal_string(*count as u64).as_str());
                s.append(" entries, got ");
                s.append(decimal_string(*len as u64).as_str());
            },
            NodesDatError::BootstrapTruncated { needed, count, len } => {
                s = String::from_str("bootstrap nodes.dat truncated: expected at least ");
                s.append(decimal_string(*needed).as_str());
                s.append(" bytes for ");
                s.append(decimal_string(*count as u64).as_str());
                s.append(" entries, got ");
                s.append(decimal_string(*len as u64).as_str());
            },
            NodesDatError::TooManyNodes { nodes } => {
                s = String::from_str("too many nodes to encode: ");
                s.append(decimal_string(*nodes as u64).as_str());
            },
        }
        s
    }
}

/// The version 2 contact stored at `off`.
pub open spec fn v2_entry_at(b: Seq<u8>, off: int) -> ImuleNodeView {
    ImuleNodeView {
        kad_version: b[off],
        client_id: id_at(b, off + 1),
        udp_dest: b.subrange(off + 17, off + 404),
        udp_key: le32(b, off + 404) as u32,
        udp_key_ip: le32(b, off + 408) as u32,
        verified: b[off + 412] != 0,
    }
}

/// The bootstrap contact stored at `off`.
pub open spec fn bootstrap_entry_at(b: Seq<u8>, off: int) -> ImuleNodeView {
    ImuleNodeView {
        kad_version: b[off],
        client_id: id_at(b, off + 1),
        udp_dest: b.subrange(off + 17, off + 404),
        udp_key: 0,
        udp_key_ip: 0,
        verified: false,
    }
}

/// What parsing a `nodes.dat` image yields.
pub open spec fn parse_spec(b: Seq<u8>) -> Result<Seq<ImuleNodeView>, NodesDatError> {
    let n = b.len();
    if n < 4 {
        Err(NodesDatError::TooSmall { len: n as usize })
    } else if le32(b, 0) == 0 {
        if n < 12 {
            Err(NodesDatError::HeaderTooSmall { len: n as usize })
        } else if le32(b, 4) != 2 {
            Err(NodesDatError::UnsupportedVersion { version: le32(b, 4) as u32 })
        } else {
            let count = le32(b, 8);
            let needed = 12 + count * 413;
            if n < needed {
                Err(NodesDatError::Truncated { needed: needed as u64, count: count as u32, len: n as usize })
            } else {
                Ok(Seq::new(count as nat, |i: int| v2_entry_at(b, 12 + 413 * i)))
            }
        }
    } else {
        let count = le32(b, 0);
        let needed = 4 + count * 404;
        if n < needed {
            Err(NodesDatError::BootstrapTruncated { needed: needed as u64, count: count as u32, len: n as usize })
        } else {
            Ok(Seq::new(count as nat, |i: int| bootstrap_entry_at(b, 4 + 404 * i)))
        }
    }
}

pub open spec fn v2_entry_bytes(n: ImuleNodeView) -> Seq<u8> {
    seq![n.kad_version] + crypt_order(n.client_id) + n.udp_dest + u32_le(n.udp_key) + u32_le(n.udp_key_ip)
        + seq![if n.verified { 1u8 } else { 0u8 }]
}

pub open spec fn v2_entries(ns: Seq<ImuleNodeView>) -> Seq<u8>
    decreases ns.len(),
{
    if ns.len() == 0 {
        Seq::empty()
    } else {
        v2_entries(ns.drop_last()) + v2_entry_bytes(ns.last())
    }
}

/// A version 2 image of the contacts.
pub open spec fn encode_v2_spec(ns: Seq<ImuleNodeView>) -> Seq<u8> {
    u32_le(0) + u32_le(2) + u32_le(ns.len() as u32) + v2_entries(ns)
}

impl ImuleNode {
    /// iMule's `CI2PAddress::hashCode()`: the first four destination bytes,
    /// little-endian.
    pub fn udp_dest_hash_code(&self) -> (h: u32)
        ensures
            h == le32(self.udp_dest@, 0),
    {
        get_u32_le(self.udp_dest.as_slice(), 0)
    }

    /// The destination in I2P base64.
    pub fn udp_dest_b64(&self) -> (s: String)
        ensures
            s@ == b64_spec(self.udp_dest@),
    {
        b64_encode(self.udp_dest.as_slice())
    }
}

pub(crate) fn copy_dest(b: &[u8], off: usize) -> (d: [u8; 387])
    requires
        off + 387 <= b@.len(),
    ensures
        d@ == b@.subrange(off as int, off + 387),
{
    let mut d = [0u8; 387];
    let blen = b.len();
    let mut i: usize = 0;
    while i < 387
        invariant
            i <= 387,
            blen == b@.len(),
            off + 387 <= blen,
            forall|j: int| 0 <= j < i ==> d@[j] == b@[off + j],
        decreases 387 - i,
    {
        d[i] = b[off + i];
        i += 1;
    }
    assert(d@ =~= b@.subrange(off as int, off + 387));
    d
}

fn read_v2_entry(b: &[u8], off: usize) -> (n: ImuleNode)
    requires
        off + 413 <= b@.len(),
    ensures
        n@ == v2_entry_at(b@, off as int),
{
    let kad_version = b[off];
    let client_id = get_kad_id(b, off + 1).0;
    let udp_dest = copy_dest(b, off + 17);
    let udp_key = get_u32_le(b, off + 404);
    let udp_key_ip = get_u32_le(b, off + 408);
    let verified = b[off + 412] != 0;
    ImuleNode { kad_version, client_id, udp_dest, udp_key, udp_key_ip, verified }
}

fn read_bootstrap_entry(b: &[u8], off: usize) -> (n: ImuleNode)
    requires
        off + 404 <= b@.len(),
    ensures
        n@ == bootstrap_entry_at(b@, off as int),
{
    let kad_version = b[off];
    let client_id = get_kad_id(b, off + 1).0;
    let udp_dest = copy_dest(b, off + 17);
    ImuleNode { kad_version, client_id, udp_dest, udp_key: 0, udp_key_ip: 0, verified: false }
}

fn parse_nodes_dat_v2(bytes: &[u8]) -> (r: Result<Vec<ImuleNode>, NodesDatError>)
    requires
        bytes@.len() >= 4,
        le32(bytes@, 0) == 0,
    ensures
        match r {
            Ok(v) => parse_spec(bytes@) == Ok::<Seq<ImuleNodeView>, NodesDatError>(nodes_view(v@)),
            Err(e) => parse_spec(bytes@) == Err::<Seq<ImuleNodeView>, NodesDatError>(e),
        },
{
    if bytes.len() < 12 {
        return Err(NodesDatError::HeaderTooSmall { len: bytes.len() });
    }
    let magic = get_u32_le(bytes, 0);
    let version = get_u32_le(bytes, 4);
    let count = get_u32_le(bytes, 8);
    if magic != 0 {
        return Err(NodesDatError::BadMagic { magic });
    }
    if version != 2 {
        return Err(NodesDatError::UnsupportedVersion { version });
    }
    let needed: u64 = 12 + (count as u64) * 413;
    if (bytes.len() as u64) < needed {
        return Err(NodesDatError::Truncated { needed, count, len: bytes.len() });
    }
    let mut out: Vec<ImuleNode> = Vec::new();
    let mut off: usize = 12;
    let mut k: u32 = 0;
    let blen = bytes.len();
    while k < count
        invariant
            k <= count,
            off == 12 + 413 * k,
            blen == bytes@.len(),
            12 + 413 * count <= blen,
            nodes_view(out@) == Seq::new(k as nat, |i: int| v2_entry_at(bytes@, 12 + 413 * i)),
        decreases count - k,
    {
        let n = read_v2_entry(bytes, off);
        let ghost before = out@;
        out.push(n);
        proof {
            assert(nodes_view(out@) =~= nodes_view(before).push(n@));
            assert(nodes_view(out@) =~= Seq::new((k + 1) as nat, |i: int| v2_entry_at(bytes@, 12 + 413 * i)));
        }
        off += 413;
        k += 1;
    }
    Ok(out)
}

fn parse_nodes_dat_bootstrap_v1(bytes: &[u8]) -> (r: Result<Vec<ImuleNode>, NodesDatError>)
    requires
        bytes@.len() >= 4,
        le32(bytes@, 0) != 0,
    ensures
        match r {
            Ok(v) => parse_spec(bytes@) == Ok::<Seq<ImuleNodeView>, NodesDatError>(nodes_view(v@)),
            Err(e) => parse_spec(bytes@) == Err::<Seq<ImuleNodeView>, NodesDatError>(e),
        },
{
    let count = get_u32_le(bytes, 0);
    let needed: u64 = 4 + (count as u64) * 404;
    if (bytes.len() as u64) < needed {
        return Err(NodesDatError::BootstrapTruncated { needed, count, len: bytes.len() });
    }
    let mut out: Vec<ImuleNode> = Vec::new();
    let mut off: usize = 4;
    let mut k: u32 = 0;
    let blen = bytes.len();
    while k < count
        invariant
            k <= count,
            off == 4 + 404 * k,
            blen == bytes@.len(),
            4 + 404 * count <= blen,
            nodes_view(out@) == Seq::new(k as nat, |i: int| bootstrap_entry_at(bytes@, 4 + 404 * i)),
        decreases count - k,
    {
        let n = read_bootstrap_entry(bytes, off);
        let ghost before = out@;
        out.push(n);
        proof {
            assert(nodes_view(out@) =~= nodes_view(before).push(n@));
            assert(nodes_view(out@) =~= Seq::new((k + 1) as nat, |i: int| bootstrap_entry_at(bytes@, 4 + 404 * i)));
        }
        off += 404;
        k += 1;
    }
    Ok(out)
}

/// Parses a version 2 or bootstrap `nodes.dat` image.
pub fn parse_nodes_dat(bytes: &[u8]) -> (r: Result<Vec<ImuleNode>, NodesDatError>)
    ensures
        match r {
            Ok(v) => parse_spec(bytes@) == Ok::<Seq<ImuleNodeView>, NodesDatError>(nodes_view(v@)),
            Err(e) => parse_spec(bytes@) == Err::<Seq<ImuleNodeView>, NodesDatError>(e),
        },
{
    if bytes.len() < 4 {
        return Err(NodesDatError::TooSmall { len: bytes.len() });
    }
    let first = get_u32_le(bytes, 0);
    if first == 0 {
        parse_nodes_dat_v2(bytes)
    } else {
        parse_nodes_dat_bootstrap_v1(bytes)
    }
}

/// Writes the contacts as a version 2 image.
pub fn encode_nodes_dat_v2(nodes: &[ImuleNode]) -> (r: Result<Vec<u8>, NodesDatError>)
    ensures
        nodes@.len() > u32::MAX ==> r == Err::<Vec<u8>, NodesDatError>(NodesDatError::TooManyNodes { nodes: nodes@.len() as usize }),
        nodes@.len() <= u32::MAX ==> (r matches Ok(out) && out@ == encode_v2_spec(nodes_view(nodes@))),
{
    if nodes.len() > 0xFFFF_FFFF {
        return Err(NodesDatError::TooManyNodes { nodes: nodes.len() });
    }
    let count = nodes.len() as u32;
    let mut out: Vec<u8> = Vec::new();
    push_u32_le(&mut out, 0);
    push_u32_le(&mut out, 2);
    push_u32_le(&mut out, count);
    let ghost header = out@;
    let mut i: usize = 0;
    while i < nodes.len()
        invariant
            i <= nodes@.len(),
            header == u32_le(0) + u32_le(2) + u32_le(count),
            out@ == header + v2_entries(nodes_view(nodes@).take(i as int)),
        decreases nodes@.len() - i,
    {
        let n = &nodes[i];
        out.push(n.kad_version);
        push_kad_id(&mut out, &KadId(n.client_id));
        push_bytes(&mut out, n.udp_dest.as_slice());
        push_u32_le(&mut out, n.udp_key);
        push_u32_le(&mut out, n.udp_key_ip);
        out.push(if n.verified { 1u8 } else { 0u8 });
        proof {
            let t = nodes_view(nodes@).take(i + 1);
            assert(t.drop_last() =~= nodes_view(nodes@).take(i as int));
            assert(out@ =~= header + v2_entries(t));
        }
        i += 1;
    }
    assert(nodes_view(nodes@).take(nodes@.len() as int) =~= nodes_view(nodes@));
    Ok(out)
}


proof fn lemma_v2_entries_len(ns: Seq<ImuleNodeView>)
    requires
        forall|i: int| 0 <= i < ns.len() ==> #[trigger] node_wf(ns[i]),
    ensures
        v2_entries(ns).len() == 413 * ns.len(),
    decreases ns.len(),
{
    if ns.len() > 0 {
        let p = ns.drop_last();
        assert forall|i: int| 0 <= i < p.len() implies #[trigger] node_wf(p[i]) by {
            assert(p[i] == ns[i]);
        }
        lemma_v2_entries_len(p);
        assert(node_wf(ns[ns.len() - 1]));
    }
}

proof fn lemma_v2_entries_at(ns: Seq<ImuleNodeView>, i: int)
    requires
        0 <= i < ns.len(),
        forall|k: int| 0 <= k < ns.len() ==> #[trigger] node_wf(ns[k]),
    ensures
        v2_entries(ns).len() == 413 * ns.len(),
        v2_entries(ns).subrange(413 * i, 413 * i + 413) == v2_entry_bytes(ns[i]),
    decreases ns.len(),
{
    lemma_v2_entries_len(ns);
    let p = ns.drop_last();
    assert forall|k: int| 0 <= k < p.len() implies #[trigger] node_wf(p[k]) by {
        assert(p[k] == ns[k]);
    }
    lemma_v2_entries_len(p);
    let e = v2_entries(ns);
    assert(e == v2_entries(p) + v2_entry_bytes(ns.last()));
    if i == ns.len() - 1 {
        assert(e.subrange(413 * i, 413 * i + 413) =~= v2_entry_bytes(ns.last()));
    } else {
        lemma_v2_entries_at(p, i);
        assert(413 * i + 413 <= 413 * p.len());
        assert(e.subrange(413 * i, 413 * i + 413) =~= v2_entries(p).subrange(413 * i, 413 * i + 413));
    }
}

proof fn lemma_v2_entry_read(b: Seq<u8>, off: int, n: ImuleNodeView)
    requires
        node_wf(n),
        0 <= off,
        off + 413 <= b.len(),
        b.subrange(off, off + 413) == v2_entry_bytes(n),
    ensures
        v2_entry_at(b, off) == n,
{
    let e = v2_entry_bytes(n);
    let w = b.subrange(off, off + 413);
    assert(b[off] == e[0]);
    assert(e.subrange(1, 17) =~= crypt_order(n.client_id));
    assert(b.subrange(off + 1, off + 17) =~= w.subrange(1, 17));
    assert(e.subrange(17, 404) =~= n.udp_dest);
    assert(b.subrange(off + 17, off + 404) =~= w.subrange(17, 404));
    assert(e.subrange(404, 408) =~= u32_le(n.udp_key));
    assert(e.subrange(408, 412) =~= u32_le(n.udp_key_ip));
    assert(b.subrange(off + 1, off + 17) =~= crypt_order(n.client_id));
    lemma_crypt_order_involutive(n.client_id);
    assert(b.subrange(off + 17, off + 404) =~= n.udp_dest);
    lemma_u32_le_roundtrip(n.udp_key);
    lemma_u32_le_roundtrip(n.udp_key_ip);
    assert(b.subrange(off + 404, off + 408) =~= w.subrange(404, 408));
    assert(b.subrange(off + 408, off + 412) =~= w.subrange(408, 412));
    assert(b.subrange(off + 404, off + 408) =~= u32_le(n.udp_key).subrange(0, 4));
    lemma_le32_shift(b, u32_le(n.udp_key), off + 404, 0);
    assert(b.subrange(off + 408, off + 412) =~= u32_le(n.udp_key_ip).subrange(0, 4));
    lemma_le32_shift(b, u32_le(n.udp_key_ip), off + 408, 0);
    assert(b[off + 412] == e[412]);
    assert(v2_entry_at(b, off).client_id =~= n.client_id);
    assert(v2_entry_at(b, off).udp_dest =~= n.udp_dest);
}

/// Reading back a version 2 image gives the contacts that were written, for
/// any list that fits the 32-bit count.
pub proof fn law_nodes_dat_v2_roundtrip(ns: Seq<ImuleNodeView>)
    requires
        ns.len() <= u32::MAX,
        forall|i: int| 0 <= i < ns.len() ==> #[trigger] node_wf(ns[i]),
    ensures
        parse_spec(encode_v2_spec(ns)) == Ok::<Seq<ImuleNodeView>, NodesDatError>(ns),
{
    let b = encode_v2_spec(ns);
    let h = u32_le(0) + u32_le(2) + u32_le(ns.len() as u32);
    lemma_v2_entries_len(ns);
    lemma_u32_le_roundtrip(0);
    lemma_u32_le_roundtrip(2);
    lemma_u32_le_roundtrip(ns.len() as u32);
    assert(b.subrange(0, 4) =~= u32_le(0).subrange(0, 4));
    lemma_le32_shift(b, u32_le(0), 0, 0);
    assert(b.subrange(4, 8) =~= u32_le(2).subrange(0, 4));
    lemma_le32_shift(b, u32_le(2), 4, 0);
    assert(b.subrange(8, 12) =~= u32_le(ns.len() as u32).subrange(0, 4));
    lemma_le32_shift(b, u32_le(ns.len() as u32), 8, 0);
    assert(le32(b, 8) == ns.len());
    let parsed = Seq::new(ns.len(), |i: int| v2_entry_at(b, 12 + 413 * i));
    assert forall|i: int| 0 <= i < ns.len() implies #[trigger] parsed[i] == ns[i] by {
        lemma_v2_entries_at(ns, i);
        assert(b.subrange(12 + 413 * i, 12 + 413 * i + 413) =~= v2_entries(ns).subrange(413 * i, 413 * i + 413));
        lemma_v2_entry_read(b, 12 + 413 * i, ns[i]);
    }
    assert(parsed =~= ns);
}

/// Both `nodes.dat` layouts read a node identifier the same way, the eMule
/// `uint128` way every identifier on the wire is read (four little-endian
/// words; see `law_nodes_dat_v2_roundtrip`): the same 16 identifier bytes
/// give the same identifier in a bootstrap entry as in a version 2 entry.
pub proof fn law_bootstrap_ids_read_like_v2(b: Seq<u8>, off: int, b2: Seq<u8>, off2: int)
    requires
        0 <= off,
        off + 404 <= b.len(),
        0 <= off2,
        off2 + 413 <= b2.len(),
        b.subrange(off + 1, off + 17) == b2.subrange(off2 + 1, off2 + 17),
    ensures
        bootstrap_entry_at(b, off).client_id == v2_entry_at(b2, off2).client_id,
        bootstrap_entry_at(b, off).client_id == crypt_order(v2_entry_bytes(v2_entry_at(b2, off2)).subrange(1, 17)),
{
    assert forall|i: int| 0 <= i < 16 implies #[trigger] b.subrange(off + 1, off + 17)[i] == b2[off2 + 1 + i] by {
        assert(b.subrange(off + 1, off + 17)[i] == b2.subrange(off2 + 1, off2 + 17)[i]);
    }
    assert(id_at(b, off + 1) =~= id_at(b2, off2 + 1));
    let n = v2_entry_at(b2, off2);
    lemma_crypt_order_involutive(id_at(b2, off2 + 1));
    assert(v2_entry_bytes(n).subrange(1, 17) =~= crypt_order(n.client_id));
}

} // verus!
