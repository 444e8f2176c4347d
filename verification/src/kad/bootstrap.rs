//! Initial bootstrap: which known nodes to ask first, the request each is
//! sent, and the tally of what came back. Sending and receiving happen
//! outside; times are nanoseconds.

use vstd::prelude::*;
use crate::i2p::b64::{b64_spec, dest_hash_code, dest_hash_spec};
use crate::kad::codec::le16;
use crate::kad::id::KadId;
use crate::kad::routing::{copy_node, first_by_key, flag, keyed_view, select_first_by_key};
use crate::kad::udp_crypto::{
    decrypt_kad_packet, decrypt_spec, encrypt_kad_packet, DecryptedKad, OP_KADEMLIAPACKEDPROT, marker_ok, node_id_key, seal_spec, udp_verify_key,
    udp_verify_key_spec, UdpCryptoError, OP_KADEMLIAHEADER,
};
use crate::kad::wire::{decode_kad2_bootstrap_res, KadPacket, KADEMLIA2_BOOTSTRAP_REQ, KADEMLIA2_BOOTSTRAP_RES,
    KADEMLIA2_PONG};
use crate::kad::wire::decode::bootstrap_fits;
use crate::kad::wire::encode::packet_bytes;
use crate::nodes::imule::{ImuleNode, ImuleNodeView};
use crate::kad::codec::le32;
use crate::text::same_text;

verus! {

pub const BOOTSTRAP_RUNTIME_NANOS: u64 = 60_000_000_000;

#[derive(Debug, Clone)]
pub struct BootstrapConfig {
    pub max_initial: usize,
    /// How long to listen for answers, in nanoseconds.
    pub runtime: u64,
}

impl Default for BootstrapConfig {
    /// Up to 64 peers, and a minute for tunnels to build and answers to come.
    fn default() -> (r: Self)
        ensures
            r.max_initial == 64,
            r.runtime == BOOTSTRAP_RUNTIME_NANOS,
    {
        BootstrapConfig { max_initial: 64, runtime: BOOTSTRAP_RUNTIME_NANOS }
    }
}

#[derive(Debug, Clone, Copy)]
pub struct BootstrapCrypto {
    pub my_kad_id: KadId,
    pub my_dest_hash: u32,
    pub udp_key_secret: u32,
}

#[derive(Debug, Clone, PartialEq, Eq, Structural)]
pub enum BootstrapError {
    NoNodes,
}

impl BootstrapError {
    pub fn to_string(&self) -> (s: String)
        ensures
            s@ == "no bootstrap nodes provided"@,
    {
        String::from_str("no bootstrap nodes provided")
    }
}

/// Nodes with a Kad version, verified ones first, then newer versions first.
pub open spec fn initial_keyed(nodes: Seq<ImuleNodeView>) -> Seq<(Seq<u128>, ImuleNodeView)>
    decreases nodes.len(),
{
    if nodes.len() == 0 {
        Seq::empty()
    } else {
        let r = initial_keyed(nodes.drop_last());
        let n = nodes.last();
        if n.kad_version != 0 {
            r.push((seq![flag(!n.verified), (255 - n.kad_version) as u128], n))
        } else {
            r
        }
    }
}

pub open spec fn node_views(v: Seq<ImuleNode>) -> Seq<ImuleNodeView> {
    v.map_values(|n: ImuleNode| n@)
}

/// The peers to send the first bootstrap requests to: at most `max_initial`,
/// in the order above; none is an error.
pub fn initial_bootstrap_peers(nodes: &[ImuleNode], max_initial: usize) -> (r: Result<Vec<ImuleNode>, BootstrapError>)
    ensures
        match r {
            Ok(v) => node_views(v@) == first_by_key(initial_keyed(node_views(nodes@)), max_initial)
                && v@.len() > 0,
            Err(e) => first_by_key(initial_keyed(node_views(nodes@)), max_initial).len() == 0,
        },
{
    let ghost s = node_views(nodes@);
    let mut cands: Vec<(Vec<u128>, ImuleNode)> = Vec::new();
    let mut i: usize = 0;
    assert(s.take(0) =~= Seq::<ImuleNodeView>::empty());
    while i < nodes.len()
        invariant
            i <= nodes@.len(),
            s == node_views(nodes@),
            keyed_view(cands@) == initial_keyed(s.take(i as int)),
        decreases nodes@.len() - i,
    {
        let n = &nodes[i];
        proof {
            assert(s.take(i + 1).drop_last() =~= s.take(i as int));
            assert(s.take(i + 1).last() == n@);
        }
        if n.kad_version != 0 {
            let mut k: Vec<u128> = Vec::new();
            k.push(if n.verified { 0 } else { 1 });
            k.push((255 - n.kad_version) as u128);
            let ghost key = seq![flag(!n@.verified), (255 - n@.kad_version) as u128];
            assert(k@ =~= key);
            let c = copy_node(n);
            let ghost before = cands@;
            cands.push((k, c));
            assert(keyed_view(cands@) =~= keyed_view(before).push((key, n@)));
        }
        i += 1;
    }
    assert(s.take(nodes@.len() as int) =~= s);
    let out = select_first_by_key(cands, max_initial);
    if out.len() == 0 {
        proof {
            assert(node_views(out@) =~= out@.map_values(|n: ImuleNode| n@));
        }
        return Err(BootstrapError::NoNodes);
    }
    assert(node_views(out@) =~= out@.map_values(|n: ImuleNode| n@));
    Ok(out)
}

/// The key a peer told us to use with it, when it was told for our destination.
pub open spec fn receiver_verify_key_for(n: ImuleNodeView, my_dest_hash: u32) -> u32 {
    if n.udp_key_ip == my_dest_hash { n.udp_key } else { 0 }
}

/// The bootstrap request for `n`: its destination in base64, and an empty
/// `KADEMLIA2_BOOTSTRAP_REQ` obfuscated with its node identifier.
pub fn bootstrap_request(n: &ImuleNode, crypto: &BootstrapCrypto) -> (r: Result<(String, Vec<u8>), UdpCryptoError>)
    ensures
        match r {
            Ok((dest, out)) => {
                let rk = out@.subrange(1, 3);
                &&& dest@ == b64_spec(n.udp_dest@)
                &&& out@.len() == 16 + 2
                &&& (marker_ok(out@[0], false) || out@[0] == 0)
                &&& out@ == seal_spec(
                    packet_bytes(KADEMLIA2_BOOTSTRAP_REQ, Seq::empty()),
                    node_id_key(KadId(n.client_id), rk),
                    out@[0],
                    rk,
                    receiver_verify_key_for(n@, crypto.my_dest_hash),
                    udp_verify_key_spec(crypto.udp_key_secret, le32(n.udp_dest@, 0) as u32),
                )
            },
            Err(e) => e is Random,
        },
{
    let dest = n.udp_dest_b64();
    let empty: [u8; 0] = [];
    let plain = KadPacket::encode(KADEMLIA2_BOOTSTRAP_REQ, empty.as_slice());
    assert(empty@ =~= Seq::<u8>::empty());
    let svk = udp_verify_key(crypto.udp_key_secret, n.udp_dest_hash_code());
    let rvk = if n.udp_key_ip == crypto.my_dest_hash { n.udp_key } else { 0 };
    assert(plain@.len() == 2);
    match encrypt_kad_packet(plain.as_slice(), KadId(n.client_id), rvk, svk) {
        Ok(out) => Ok((dest, out)),
        Err(e) => {
            assert(e is Random);
            Err(e)
        },
    }
}

/// What the listening phase has seen: datagrams received, dropped as
/// undecipherable or unparsable, decrypted from obfuscation, contacts
/// offered, and the destinations that answered with a PONG or a
/// BOOTSTRAP_RES (each once).
pub struct TallyModel {
    pub received_total: int,
    pub dropped_unparsable: int,
    pub decrypted_ok: int,
    pub new_contacts: int,
    pub pongs: Seq<Seq<char>>,
    pub responders: Seq<Seq<char>>,
}

pub open spec fn add_once(s: Seq<Seq<char>>, x: Seq<char>) -> Seq<Seq<char>> {
    if s.contains(x) { s } else { s.push(x) }
}

/// The tally after a decoded packet from `from`.
pub open spec fn record_spec(t: TallyModel, from: Seq<char>, opcode: u8, payload: Seq<u8>) -> TallyModel {
    if opcode == KADEMLIA2_PONG {
        TallyModel { pongs: add_once(t.pongs, from), ..t }
    } else if opcode == KADEMLIA2_BOOTSTRAP_RES {
        TallyModel {
            responders: add_once(t.responders, from),
            new_contacts: t.new_contacts + if bootstrap_fits(payload) { le16(payload, 404) } else { 0 },
            ..t
        }
    } else {
        t
    }
}

/// The tally once a datagram was deciphered (counted when it was obfuscated).
pub open spec fn deciphered(t: TallyModel, obfuscated: bool) -> TallyModel {
    TallyModel { decrypted_ok: t.decrypted_ok + if obfuscated { 1int } else { 0int }, ..t }
}

pub open spec fn dropped(t: TallyModel) -> TallyModel {
    TallyModel { dropped_unparsable: t.dropped_unparsable + 1, ..t }
}

pub open spec fn strings_view(v: Seq<String>) -> Seq<Seq<char>> {
    v.map_values(|s: String| s@)
}

#[derive(Debug, Clone)]
pub struct BootstrapTally {
    received_total: usize,
    dropped_unparsable: usize,
    decrypted_ok: usize,
    new_contacts: usize,
    pong_from: Vec<String>,
    bootstrap_from: Vec<String>,
}

fn add_text_once(list: &mut Vec<String>, x: &str)
    ensures
        strings_view(final(list)@) == add_once(strings_view(old(list)@), x@),
{
    let ghost s = strings_view(list@);
    let mut i: usize = 0;
    while i < list.len()
        invariant
            i <= list@.len(),
            s == strings_view(list@),
            forall|j: int| 0 <= j < i ==> s[j] != x@,
        decreases list@.len() - i,
    {
        if same_text(list[i].as_str(), x) {
            assert(s.contains(x@)) by {
                assert(s[i as int] == x@);
            }
            return;
        }
        i += 1;
    }
    list.push(String::from_str(x));
    assert(strings_view(list@) =~= s.push(x@));
}

impl BootstrapTally {
    pub closed spec fn model(&self) -> TallyModel {
        TallyModel {
            received_total: self.received_total as int,
            dropped_unparsable: self.dropped_unparsable as int,
            decrypted_ok: self.decrypted_ok as int,
            new_contacts: self.new_contacts as int,
            pongs: strings_view(self.pong_from@),
            responders: strings_view(self.bootstrap_from@),
        }
    }

    pub fn new() -> (t: Self)
        ensures
            t.model() == (TallyModel {
                received_total: 0,
                dropped_unparsable: 0,
                decrypted_ok: 0,
                new_contacts: 0,
                pongs: Seq::empty(),
                responders: Seq::empty(),
            }),
    {
        let t = BootstrapTally {
            received_total: 0,
            dropped_unparsable: 0,
            decrypted_ok: 0,
            new_contacts: 0,
            pong_from: Vec::new(),
            bootstrap_from: Vec::new(),
        };
        assert(strings_view(t.pong_from@) =~= Seq::<Seq<char>>::empty());
        assert(strings_view(t.bootstrap_from@) =~= Seq::<Seq<char>>::empty());
        t
    }

    /// Received, dropped, decrypted, PONG senders, BOOTSTRAP_RES senders,
    /// contacts offered.
    pub fn summary(&self) -> (r: (usize, usize, usize, usize, usize, usize))
        ensures
            r.0 == self.model().received_total,
            r.1 == self.model().dropped_unparsable,
            r.2 == self.model().decrypted_ok,
            r.3 == self.model().pongs.len(),
            r.4 == self.model().responders.len(),
            r.5 == self.model().new_contacts,
    {
        (self.received_total, self.dropped_unparsable, self.decrypted_ok, self.pong_from.len(),
            self.bootstrap_from.len(), self.new_contacts)
    }

    /// Counts a decoded packet from `from`.
    pub fn record_packet(&mut self, from: &str, opcode: u8, payload: &[u8])
        requires
            old(self).model().new_contacts + 65535 <= usize::MAX,
        ensures
            final(self).model() == record_spec(old(self).model(), from@, opcode, payload@),
    {
        if opcode == KADEMLIA2_PONG {
            add_text_once(&mut self.pong_from, from);
        } else if opcode == KADEMLIA2_BOOTSTRAP_RES {
            add_text_once(&mut self.bootstrap_from, from);
            match decode_kad2_bootstrap_res(payload) {
                Ok(res) => {
                    assert(res.contacts@.len() <= 65535);
                    self.new_contacts = self.new_contacts + res.contacts.len();
                },
                Err(_) => {},
            }
        }
    }

    /// The part of `on_datagram` after deciphering.
    fn after_decrypt(&mut self, from: &str, d: DecryptedKad)
        requires
            old(self).model().dropped_unparsable < usize::MAX,
            old(self).model().decrypted_ok < usize::MAX,
            old(self).model().new_contacts + 65535 <= usize::MAX,
        ensures
            ({
                let t0 = old(self).model();
                let t1 = final(self).model();
                let base = deciphered(t0, d.was_obfuscated);
                let p = d.payload@;
                if p.len() >= 2 && p[0] == OP_KADEMLIAHEADER {
                    t1 == record_spec(base, from@, p[1], p.subrange(2, p.len() as int))
                } else if p.len() < 2 || p[0] != OP_KADEMLIAPACKEDPROT {
                    t1 == dropped(base)
                } else {
                    t1 == dropped(base) || exists|pl: Seq<u8>| t1 == record_spec(base, from@, p[1], pl)
                }
            }),
    {
        let ghost t0 = self.model();
        let ghost base = deciphered(t0, d.was_obfuscated);
        let ghost p = d.payload@;
        if d.was_obfuscated {
            self.decrypted_ok = self.decrypted_ok + 1;
        }
        assert(self.model() == base);
        match KadPacket::decode(d.payload.as_slice()) {
            Err(_) => {
                self.dropped_unparsable = self.dropped_unparsable + 1;
                assert(self.model() == dropped(base));
                assert(!(p.len() >= 2 && p[0] == OP_KADEMLIAHEADER));
            },
            Ok(pkt) => {
                let ghost pl = pkt.payload@;
                self.record_packet(from, pkt.opcode, pkt.payload.as_slice());
                assert(self.model() == record_spec(base, from@, pkt.opcode, pl));
                proof {
                    if p.len() >= 2 && p[0] == OP_KADEMLIAHEADER {
                        assert(pl == p.subrange(2, p.len() as int));
                    } else {
                        assert(p.len() >= 2 && p[0] == OP_KADEMLIAPACKEDPROT);
                        assert(pkt.opcode == p[1]);
                        assert(exists|x: Seq<u8>| self.model() == record_spec(base, from@, p[1], x));
                    }
                }
            },
        }
    }

    /// Counts one datagram from `from`: it is dropped when it cannot be
    /// deciphered or decoded, and otherwise recorded as its packet.
    #[verifier::rlimit(60)]
    pub fn on_datagram(&mut self, from: &str, payload: &[u8], crypto: &BootstrapCrypto)
        requires
            old(self).model().received_total < usize::MAX,
            old(self).model().dropped_unparsable < usize::MAX,
            old(self).model().decrypted_ok < usize::MAX,
            old(self).model().new_contacts + 65535 <= usize::MAX,
        ensures
            ({
                let t0 = old(self).model();
                let t1 = final(self).model();
                let got = TallyModel { received_total: t0.received_total + 1, ..t0 };
                match decrypt_spec(payload@, crypto.my_kad_id, crypto.udp_key_secret, dest_hash_spec(from@)) {
                    Err(_) => t1 == dropped(got),
                    Ok(d) => {
                        let base = deciphered(got, d.3);
                        let p = d.0;
                        if p.len() >= 2 && p[0] == OP_KADEMLIAHEADER {
                            t1 == record_spec(base, from@, p[1], p.subrange(2, p.len() as int))
                        } else if p.len() < 2 || p[0] != OP_KADEMLIAPACKEDPROT {
                            t1 == dropped(base)
                        } else {
                            t1 == dropped(base) || exists|pl: Seq<u8>| t1 == record_spec(base, from@, p[1], pl)
                        }
                    },
                }
            }),
    {
        self.received_total = self.received_total + 1;
        let h = dest_hash_code(from);
        match decrypt_kad_packet(payload, crypto.my_kad_id, crypto.udp_key_secret, h) {
            Err(_) => {
                self.dropped_unparsable = self.dropped_unparsable + 1;
            },
            Ok(d) => {
                self.after_decrypt(from, d);
            },
        }
    }
}

} // verus!
