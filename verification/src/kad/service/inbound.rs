//! Inbound datagrams: deciphering, refreshing the sender in the routing
//! table, decoding, flood limits and matching responses to our requests;
//! then the answers to the requests that only need the routing table
//! (PING, BOOTSTRAP_REQ, KADEMLIA2_REQ and the old HELLO_REQ).
//! Sending happens outside; times are nanoseconds.

use vstd::prelude::*;
use crate::i2p::b64::{b64_spec, decode, dest_hash_code, dest_hash_spec, law_b64_roundtrip};
use crate::kad::id::{crypt_order, KadId};
use crate::kad::routing::{
    closest_key, first_by_key, keyed, seen_marked, sender_keys_updated, upsert_effect, NodeModel, RoutingTable,
    UpsertOutcome,
};
use crate::kad::service::requests::{consume_step, limiter_step, InboundLimiter, OutRequestTracker};
use crate::kad::service::keyword::{entries_of, hits_of, publish_all, store_limited, window, KeywordHits};
use crate::kad::service::types::{KadKeywordHit, KadServiceConfig, KadServiceCrypto};
use crate::kad::service::sources::{source_pairs, sources_of, stored_source, SourceEntry, SourceStore};
use crate::kad::udp_crypto::{
    decrypt_kad_packet, decrypt_spec, decrypted_view, encrypt_kad_packet_with_receiver_key, DecryptedKad, marker_ok, receiver_key, seal_spec,
    udp_verify_key, udp_verify_key_spec, UdpCryptoError, OP_KADEMLIAHEADER, OP_KADEMLIAPACKEDPROT,
};
use crate::kad::wire::{
    decode_kad2_publish_key_keyword_prefix, decode_kad2_publish_key_req_lenient, decode_kad2_search_key_req,
    encode_kad2_publish_res_for_key, encode_kad2_search_res_keyword, Kad2PublishKeyEntry, KADEMLIA2_PUBLISH_RES,
    decode_kad2_publish_source_req_min, decode_kad2_search_source_req, encode_kad2_publish_res_for_source,
    encode_kad2_search_res_sources,
    KADEMLIA2_SEARCH_RES, decode_kad2_req, encode_kad2_bootstrap_res, encode_kad2_res, Kad2Contact, KadPacket, KADEMLIA2_BOOTSTRAP_RES,
    KADEMLIA2_PONG, KADEMLIA2_RES, KADEMLIA_HELLO_RES_DEPRECATED,
};
use crate::kad::wire::decode::MAX_INFLATED_PAYLOAD;
use crate::kad::wire::encode::{bootstrap_res_bytes, packet_bytes, publish_res_key_bytes, publish_res_source_bytes, res_bytes,
    search_res_keyword_bytes, search_res_sources_bytes};
use crate::kad::wire::decode::{key_entry_model, key_entry_view, lenient_entries};
use crate::kad::codec::le16;
use crate::nodes::imule::{copy_dest, ImuleNode, ImuleNodeView};
use crate::kad::codec::id_at;
use crate::kad::wire::decode::req_count_byte;

verus! {

/// A datagram that passed the inbound checks.
#[derive(Debug)]
pub struct InboundPacket {
    /// Hash code of the sender's destination.
    pub from_hash: u32,
    pub was_obfuscated: bool,
    pub sender_verify_key: u32,
    pub receiver_verify_key: u32,
    /// Whether it was sent with the key we gave the sender.
    pub valid_receiver_key: bool,
    pub opcode: u8,
    pub payload: Vec<u8>,
}

/// What becomes of an inbound datagram.
#[derive(Debug)]
pub enum InboundVerdict {
    Undecipherable,
    Unparsable,
    RateLimited,
    Unrequested,
    Accepted(InboundPacket),
}

/// `bytes` decodes to a packet with `opcode` and `payload`: a plain packet
/// as it stands, a packed one with its payload inflated (whose contents are
/// only bounded here).
pub open spec fn decoded_as(bytes: Seq<u8>, opcode: u8, payload: Seq<u8>) -> bool {
    bytes.len() >= 2 && opcode == bytes[1] && (
        (bytes[0] == OP_KADEMLIAHEADER && payload == bytes.subrange(2, bytes.len() as int))
        || (bytes[0] == OP_KADEMLIAPACKEDPROT && payload.len() <= MAX_INFLATED_PAYLOAD)
    )
}

pub open spec fn plain_packet(bytes: Seq<u8>) -> bool {
    bytes.len() >= 2 && bytes[0] == OP_KADEMLIAHEADER
}

/// Whether a deciphered datagram carried the receiver key we handed its
/// sender.
pub open spec fn valid_receiver(secret: u32, from_hash: u32, obfuscated: bool, receiver_verify_key: u32) -> bool {
    obfuscated && udp_verify_key_spec(secret, from_hash) == receiver_verify_key
}

enum Gate {
    RateLimited,
    Unrequested,
    Pass,
}

/// The flood limit, then the match against our requests.
fn gate(
    limiter: &mut InboundLimiter,
    tracker: &mut OutRequestTracker,
    from_dest_b64: &str,
    from_hash: u32,
    opcode: u8,
    payload_len: usize,
    now: u64,
) -> (g: Gate)
    requires
        old(limiter).wf(),
    ensures
        final(limiter).wf(),
        match g {
            Gate::RateLimited => limiter_step(*old(limiter), *final(limiter), from_hash, opcode, now, false)
                && *final(tracker) == *old(tracker),
            Gate::Unrequested => limiter_step(*old(limiter), *final(limiter), from_hash, opcode, now, true)
                && consume_step(*old(tracker), *final(tracker), from_dest_b64@, opcode, payload_len, now, false),
            Gate::Pass => limiter_step(*old(limiter), *final(limiter), from_hash, opcode, now, true)
                && consume_step(*old(tracker), *final(tracker), from_dest_b64@, opcode, payload_len, now, true),
        },
{
    if !limiter.allowed(from_hash, opcode, now) {
        return Gate::RateLimited;
    }
    if !tracker.consume(from_dest_b64, opcode, payload_len, now) {
        return Gate::Unrequested;
    }
    Gate::Pass
}

/// What becomes of a deciphered datagram (see `receive_inbound`).
pub open spec fn verdict_after_decrypt(
    v: InboundVerdict,
    routing0: RoutingTable,
    routing1: RoutingTable,
    limiter0: InboundLimiter,
    limiter1: InboundLimiter,
    tracker0: OutRequestTracker,
    tracker1: OutRequestTracker,
    from: Seq<char>,
    h: u32,
    d: (Seq<u8>, u32, u32, bool),
    crypto: KadServiceCrypto,
    now: u64,
) -> bool {
    let valid = valid_receiver(crypto.udp_key_secret, h, d.3, d.1);
    &&& sender_keys_updated(routing0, routing1, from, now, d.2, crypto.my_dest_hash, valid)
    &&& match v {
        InboundVerdict::Undecipherable => false,
        InboundVerdict::Unparsable => {
            &&& !plain_packet(d.0)
            &&& limiter1 == limiter0
            &&& tracker1 == tracker0
        },
        InboundVerdict::RateLimited => {
            &&& exists|op: u8, pl: Seq<u8>| #[trigger] decoded_as(d.0, op, pl)
                && limiter_step(limiter0, limiter1, h, op, now, false)
            &&& tracker1 == tracker0
        },
        InboundVerdict::Unrequested => {
            exists|op: u8, pl: Seq<u8>| #[trigger] decoded_as(d.0, op, pl)
                && limiter_step(limiter0, limiter1, h, op, now, true)
                && consume_step(tracker0, tracker1, from, op, pl.len() as usize, now, false)
        },
        InboundVerdict::Accepted(p) => {
            &&& decoded_as(d.0, p.opcode, p.payload@)
            &&& limiter_step(limiter0, limiter1, h, p.opcode, now, true)
            &&& consume_step(tracker0, tracker1, from, p.opcode, p.payload@.len() as usize, now, true)
            &&& p.from_hash == h
            &&& p.was_obfuscated == d.3
            &&& p.receiver_verify_key == d.1
            &&& p.sender_verify_key == d.2
            &&& p.valid_receiver_key == valid
        },
    }
}

fn after_decrypt(
    routing: &mut RoutingTable,
    limiter: &mut InboundLimiter,
    tracker: &mut OutRequestTracker,
    from_dest_b64: &str,
    from_hash: u32,
    decrypted: DecryptedKad,
    crypto: &KadServiceCrypto,
    now: u64,
) -> (v: InboundVerdict)
    requires
        old(routing).wf(),
        old(limiter).wf(),
    ensures
        final(routing).wf(),
        final(limiter).wf(),
        verdict_after_decrypt(v, *old(routing), *final(routing), *old(limiter), *final(limiter), *old(tracker),
            *final(tracker), from_dest_b64@, from_hash, decrypted_view(decrypted), *crypto, now),
{
    let valid_receiver_key = if decrypted.was_obfuscated {
        udp_verify_key(crypto.udp_key_secret, from_hash) == decrypted.receiver_verify_key
    } else {
        false
    };
    routing.update_sender_keys_by_dest(
        from_dest_b64,
        now,
        decrypted.sender_verify_key,
        crypto.my_dest_hash,
        valid_receiver_key,
    );
    let pkt = match KadPacket::decode(decrypted.payload.as_slice()) {
        Ok(p) => p,
        Err(_) => {
            return InboundVerdict::Unparsable;
        },
    };
    let ghost dv = decrypted_view(decrypted);
    let ghost pl = pkt.payload@;
    assert(decoded_as(dv.0, pkt.opcode, pl));
    let ghost lim0 = *limiter;
    let ghost tr0 = *tracker;
    match gate(limiter, tracker, from_dest_b64, from_hash, pkt.opcode, pkt.payload.len(), now) {
        Gate::RateLimited => {
            assert(decoded_as(dv.0, pkt.opcode, pl) && limiter_step(lim0, *limiter, from_hash, pkt.opcode, now, false));
            return InboundVerdict::RateLimited;
        },
        Gate::Unrequested => {
            assert(pl.len() as usize == pkt.payload.len());
            assert(decoded_as(dv.0, pkt.opcode, pl) && limiter_step(lim0, *limiter, from_hash, pkt.opcode, now, true)
                && consume_step(tr0, *tracker, from_dest_b64@, pkt.opcode, pl.len() as usize, now, false));
            return InboundVerdict::Unrequested;
        },
        Gate::Pass => {},
    }
    InboundVerdict::Accepted(InboundPacket {
        from_hash,
        was_obfuscated: decrypted.was_obfuscated,
        sender_verify_key: decrypted.sender_verify_key,
        receiver_verify_key: decrypted.receiver_verify_key,
        valid_receiver_key,
        opcode: pkt.opcode,
        payload: pkt.payload,
    })
}

/// Checks an inbound datagram from `from_dest_b64` at `now`: it must
/// decipher; the sender's entry in the routing table is refreshed; it must
/// decode, stay within the sender's request rate, and, when it is a
/// response, answer one of our live requests.
pub fn receive_inbound(
    routing: &mut RoutingTable,
    limiter: &mut InboundLimiter,
    tracker: &mut OutRequestTracker,
    from_dest_b64: &str,
    payload: &[u8],
    crypto: &KadServiceCrypto,
    now: u64,
) -> (v: InboundVerdict)
    requires
        old(routing).wf(),
        old(limiter).wf(),
    ensures
        final(routing).wf(),
        final(limiter).wf(),
        ({
            let h = dest_hash_spec(from_dest_b64@);
            match decrypt_spec(payload@, crypto.my_kad_id, crypto.udp_key_secret, h) {
                Err(_) => {
                    &&& v is Undecipherable
                    &&& *final(routing) == *old(routing)
                    &&& *final(limiter) == *old(limiter)
                    &&& *final(tracker) == *old(tracker)
                },
                Ok(d) => verdict_after_decrypt(v, *old(routing), *final(routing), *old(limiter), *final(limiter),
                    *old(tracker), *final(tracker), from_dest_b64@, h, d, *crypto, now),
            }
        }),
{
    let from_hash = dest_hash_code(from_dest_b64);
    match decrypt_kad_packet(payload, crypto.my_kad_id, crypto.udp_key_secret, from_hash) {
        Ok(d) => after_decrypt(routing, limiter, tracker, from_dest_b64, from_hash, d, crypto, now),
        Err(_) => InboundVerdict::Undecipherable,
    }
}

/// A reply to `pkt`: obfuscated with the sender's key when the request came
/// obfuscated with one, plain otherwise.
pub fn seal_reply(plain: Vec<u8>, pkt: &InboundPacket, crypto: &KadServiceCrypto) -> (r: Result<Vec<u8>, UdpCryptoError>)
    ensures
        !(pkt.was_obfuscated && pkt.sender_verify_key != 0) ==> (r matches Ok(out) && out@ == plain@),
        pkt.was_obfuscated && pkt.sender_verify_key != 0 ==> match r {
            Ok(out) => {
                let rk = out@.subrange(1, 3);
                &&& out@.len() == 16 + plain@.len()
                &&& (marker_ok(out@[0], true) || out@[0] == 0)
                &&& out@ == seal_spec(plain@, receiver_key(pkt.sender_verify_key, rk), out@[0], rk,
                    pkt.sender_verify_key, udp_verify_key_spec(crypto.udp_key_secret, pkt.from_hash))
            },
            Err(e) => e is Random,
        },
{
    if pkt.was_obfuscated && pkt.sender_verify_key != 0 {
        let svk = udp_verify_key(crypto.udp_key_secret, pkt.from_hash);
        encrypt_kad_packet_with_receiver_key(plain.as_slice(), pkt.sender_verify_key, svk)
    } else {
        Ok(plain)
    }
}

/// The answer to a PING: the sender is marked seen, and the reply is an
/// empty PONG.
pub fn answer_ping(routing: &mut RoutingTable, from_dest_b64: &str, now: u64) -> (plain: Vec<u8>)
    requires
        old(routing).wf(),
    ensures
        final(routing).wf(),
        seen_marked(*old(routing), *final(routing), from_dest_b64@, now),
        plain@ == packet_bytes(KADEMLIA2_PONG, Seq::empty()),
{
    routing.mark_seen_by_dest(from_dest_b64, now);
    let empty: [u8; 0] = [];
    assert(empty@ =~= Seq::<u8>::empty());
    KadPacket::encode(KADEMLIA2_PONG, empty.as_slice())
}

/// A contact as the wire carries it: the node's version, identifier and destination.
pub open spec fn contact_of(c: Kad2Contact, n: ImuleNodeView) -> bool {
    c.kad_version == n.kad_version && c.node_id.0@ == n.client_id && c.udp_dest@ == n.udp_dest
}

pub open spec fn contacts_of(cs: Seq<Kad2Contact>, ns: Seq<ImuleNodeView>) -> bool {
    cs.len() == ns.len() && forall|i: int| 0 <= i < cs.len() ==> contact_of(#[trigger] cs[i], ns[i])
}

fn to_contacts(nodes: &Vec<ImuleNode>) -> (cs: Vec<Kad2Contact>)
    ensures
        contacts_of(cs@, nodes@.map_values(|n: ImuleNode| n@)),
{
    let ghost ns = nodes@.map_values(|n: ImuleNode| n@);
    let mut cs: Vec<Kad2Contact> = Vec::new();
    let mut i: usize = 0;
    while i < nodes.len()
        invariant
            i <= nodes@.len(),
            ns == nodes@.map_values(|n: ImuleNode| n@),
            cs@.len() == i,
            forall|k: int| 0 <= k < i ==> contact_of(#[trigger] cs@[k], ns[k]),
        decreases nodes@.len() - i,
    {
        let n = &nodes[i];
        cs.push(Kad2Contact { kad_version: n.kad_version, node_id: KadId(n.client_id), udp_dest: n.udp_dest });
        i += 1;
    }
    cs
}

/// What `closest_to` returns.
pub open spec fn nearest(t: RoutingTable, target: KadId, exclude: u32, max: usize) -> Seq<ImuleNodeView> {
    first_by_key(keyed(t.nodes(), |st: NodeModel| closest_key(st, target, exclude)), max)
}

pub const BOOTSTRAP_CONTACTS: usize = 20;
pub const MAX_REQ_CONTACTS: usize = 32;
pub const MY_KAD_VERSION: u8 = 8;

/// The answer to a BOOTSTRAP_REQ: the sender is marked seen, and the reply
/// lists the twenty nodes nearest to us (except the sender), with our
/// identifier, version and destination.
pub fn answer_bootstrap_req(routing: &mut RoutingTable, from_dest_b64: &str, from_hash: u32, crypto: &KadServiceCrypto, now: u64)
    -> (plain: Vec<u8>)
    requires
        old(routing).wf(),
    ensures
        final(routing).wf(),
        seen_marked(*old(routing), *final(routing), from_dest_b64@, now),
        exists|cs: Seq<Kad2Contact>|
            #[trigger] contacts_of(cs, nearest(*final(routing), crypto.my_kad_id, from_hash, BOOTSTRAP_CONTACTS))
            && plain@ == packet_bytes(KADEMLIA2_BOOTSTRAP_RES,
                bootstrap_res_bytes(crypto.my_kad_id, MY_KAD_VERSION, crypto.my_dest@, cs)),
{
    routing.mark_seen_by_dest(from_dest_b64, now);
    let nodes = routing.closest_to(crypto.my_kad_id, BOOTSTRAP_CONTACTS, from_hash);
    let contacts = to_contacts(&nodes);
    let body = encode_kad2_bootstrap_res(crypto.my_kad_id, MY_KAD_VERSION, &crypto.my_dest, contacts.as_slice());
    let out = KadPacket::encode(KADEMLIA2_BOOTSTRAP_RES, body.as_slice());
    assert(contacts_of(contacts@, nearest(*routing, crypto.my_kad_id, from_hash, BOOTSTRAP_CONTACTS)));
    out
}

/// The reply to the old Kad1 HELLO_REQ: our identifier (in Kad1 byte order),
/// our destination as UDP and TCP destination, and contact type 3.
pub fn answer_hello_req_deprecated(crypto: &KadServiceCrypto) -> (plain: Vec<u8>)
    ensures
        plain@ == packet_bytes(KADEMLIA_HELLO_RES_DEPRECATED,
            crypt_order(crypto.my_kad_id.0@) + crypto.my_dest@ + crypto.my_dest@ + seq![3u8]),
{
    let mut body: Vec<u8> = Vec::new();
    let id = crypto.my_kad_id.to_crypt_bytes();
    let mut k: usize = 0;
    while k < 16
        invariant
            k <= 16,
            body@ == id@.take(k as int),
        decreases 16 - k,
    {
        body.push(id[k]);
        k += 1;
        assert(body@ =~= id@.take(k as int));
    }
    let ghost b0 = body@;
    let mut j: usize = 0;
    while j < 387
        invariant
            j <= 387,
            body@ == b0 + crypto.my_dest@.take(j as int),
        decreases 387 - j,
    {
        body.push(crypto.my_dest[j]);
        j += 1;
        assert(body@ =~= b0 + crypto.my_dest@.take(j as int));
    }
    let ghost b1 = body@;
    let mut m: usize = 0;
    while m < 387
        invariant
            m <= 387,
            body@ == b1 + crypto.my_dest@.take(m as int),
        decreases 387 - m,
    {
        body.push(crypto.my_dest[m]);
        m += 1;
        assert(body@ =~= b1 + crypto.my_dest@.take(m as int));
    }
    body.push(3);
    proof {
        assert(id@.take(16) =~= id@);
        assert(crypto.my_dest@.take(387) =~= crypto.my_dest@);
        assert(body@ =~= crypt_order(crypto.my_kad_id.0@) + crypto.my_dest@ + crypto.my_dest@ + seq![3u8]);
    }
    KadPacket::encode(KADEMLIA_HELLO_RES_DEPRECATED, body.as_slice())
}


/// The node a KADEMLIA2_REQ tells us of: a Kad2 peer (version 6 until a
/// hello says more) with the identifier it sent and the destination it came
/// from; keys only when the request came obfuscated.
pub open spec fn sender_node(id: Seq<u8>, dest: Seq<u8>, pkt: InboundPacket, my_dest_hash: u32) -> ImuleNodeView {
    ImuleNodeView {
        kad_version: 6,
        client_id: id,
        udp_dest: dest,
        udp_key: if pkt.was_obfuscated { pkt.sender_verify_key } else { 0 },
        udp_key_ip: if pkt.was_obfuscated { my_dest_hash } else { 0 },
        verified: pkt.valid_receiver_key,
    }
}

/// The table after learning the sender of a request with payload `b`: its
/// node is upserted when the request names it and the sender's destination
/// decodes to a full destination; otherwise nothing changes.
pub open spec fn learned_sender(a: RoutingTable, m: RoutingTable, from: Seq<char>, pkt: InboundPacket, my_dest_hash: u32, now: u64) -> bool {
    let b = pkt.payload@;
    if b.len() >= 49 && exists|raw: Seq<u8>| b64_spec(raw) == from && raw.len() == 387 {
        let raw = choose|raw: Seq<u8>| b64_spec(raw) == from && raw.len() == 387;
        exists|r: UpsertOutcome| upsert_effect(a, m, sender_node(id_at(b, 33), raw, pkt, my_dest_hash), now, r)
    } else {
        m == a
    }
}

/// How many contacts a KADEMLIA2_REQ gets: as many as asked, at most 32.
pub open spec fn req_max(b: Seq<u8>) -> usize {
    if req_count_byte(b) < 32 { req_count_byte(b) as usize } else { 32 }
}

/// A KADEMLIA2_REQ payload that decodes and is addressed to us.
pub open spec fn req_for_me(b: Seq<u8>, me: KadId) -> bool {
    b.len() >= 33 && req_count_byte(b) != 0 && id_at(b, 17) == me.0@
}

/// The answer to a KADEMLIA2_REQ: none when it does not decode or is not
/// addressed to us; otherwise the sender is learned and marked seen, and the
/// reply lists the nodes nearest to the target (as many as asked, at most
/// 32, except the sender).
pub fn answer_kad2_req(routing: &mut RoutingTable, from_dest_b64: &str, pkt: &InboundPacket, crypto: &KadServiceCrypto, now: u64)
    -> (r: Option<Vec<u8>>)
    requires
        old(routing).wf(),
    ensures
        final(routing).wf(),
        !req_for_me(pkt.payload@, crypto.my_kad_id) ==> r is None && *final(routing) == *old(routing),
        req_for_me(pkt.payload@, crypto.my_kad_id) ==> ({
            let b = pkt.payload@;
            let max = req_max(b);
            &&& exists|m: RoutingTable| #[trigger] learned_sender(*old(routing), m, from_dest_b64@, *pkt, crypto.my_dest_hash, now)
                && seen_marked(m, *final(routing), from_dest_b64@, now)
            &&& r is Some
            &&& exists|t: KadId, cs: Seq<Kad2Contact>| t.0@ == id_at(b, 1)
                && #[trigger] contacts_of(cs, nearest(*final(routing), t, pkt.from_hash, max))
                && r->Some_0@ == packet_bytes(KADEMLIA2_RES, res_bytes(t, cs))
        }),
{
    let req = match decode_kad2_req(pkt.payload.as_slice()) {
        Ok(q) => q,
        Err(_) => {
            return None;
        },
    };
    if !(req.check == crypto.my_kad_id) {
        return None;
    }
    let ghost r0 = *routing;
    match req.sender_id {
        Some(sid) => match decode(from_dest_b64) {
            Some(raw) => {
                if raw.len() == 387 {
                    let udp_dest = copy_dest(raw.as_slice(), 0);
                    assert(udp_dest@ =~= raw@);
                    let node = ImuleNode {
                        kad_version: 6,
                        client_id: sid.0,
                        udp_dest,
                        udp_key: if pkt.was_obfuscated { pkt.sender_verify_key } else { 0 },
                        udp_key_ip: if pkt.was_obfuscated { crypto.my_dest_hash } else { 0 },
                        verified: pkt.valid_receiver_key,
                    };
                    let outcome = routing.upsert(node, now);
                    proof {
                        let c = choose|x: Seq<u8>| b64_spec(x) == from_dest_b64@ && x.len() == 387;
                        law_b64_roundtrip(c);
                        law_b64_roundtrip(raw@);
                        assert(node@ == sender_node(id_at(pkt.payload@, 33), c, *pkt, crypto.my_dest_hash));
                        assert(learned_sender(r0, *routing, from_dest_b64@, *pkt, crypto.my_dest_hash, now));
                    }
                } else {
                    proof {
                        assert forall|x: Seq<u8>| b64_spec(x) == from_dest_b64@ implies x.len() != 387 by {
                            law_b64_roundtrip(x);
                            law_b64_roundtrip(raw@);
                        }
                    }
                }
            },
            None => {},
        },
        None => {},
    }
    let ghost mid = *routing;
    assert(learned_sender(r0, mid, from_dest_b64@, *pkt, crypto.my_dest_hash, now));
    routing.mark_seen_by_dest(from_dest_b64, now);
    let max: usize = if (req.requested_contacts as usize) < MAX_REQ_CONTACTS { req.requested_contacts as usize } else { MAX_REQ_CONTACTS };
    let nodes = routing.closest_to(req.target, max, pkt.from_hash);
    let contacts = to_contacts(&nodes);
    let body = encode_kad2_res(req.target, contacts.as_slice());
    let out = KadPacket::encode(KADEMLIA2_RES, body.as_slice());
    proof {
        let b = pkt.payload@;
        let smax = req_max(b);
        assert(req.requested_contacts as int == req_count_byte(b));
        assert(max == smax);
        assert(learned_sender(r0, mid, from_dest_b64@, *pkt, crypto.my_dest_hash, now)
            && seen_marked(mid, *routing, from_dest_b64@, now));
        assert(req.target.0@ == id_at(b, 1));
        assert(contacts_of(contacts@, nearest(*routing, req.target, pkt.from_hash, smax)));
        assert(out@ == packet_bytes(KADEMLIA2_RES, res_bytes(req.target, contacts@)));
    }
    Some(out)
}


/// What a keyword search answer carries of a hit.
pub open spec fn result_tuple(h: KadKeywordHit) -> (KadId, String, u64, Option<String>) {
    (h.file_id, h.filename, h.file_size, h.file_type)
}

/// The stored hits a keyword search request gets: up to 64 of the
/// keyword's hits from the requested position on.
pub open spec fn search_results(store: Seq<crate::kad::service::keyword::KeywordEntry>, kw: Seq<u8>, start: int)
    -> Seq<(KadId, String, u64, Option<String>)>
{
    window(hits_of(entries_of(store, kw)), start, 64).map_values(|h: KadKeywordHit| result_tuple(h))
}

/// SEARCH_KEY_REQ: the sender is marked seen; a request that decodes (18
/// bytes or more) is answered with up to 64 stored hits of its keyword from
/// its start position on.
pub fn answer_search_key_req(routing: &mut RoutingTable, store: &KeywordHits, from_dest_b64: &str, pkt: &InboundPacket,
    crypto: &KadServiceCrypto, now: u64) -> (r: Option<Vec<u8>>)
    requires
        old(routing).wf(),
    ensures
        final(routing).wf(),
        seen_marked(*old(routing), *final(routing), from_dest_b64@, now),
        pkt.payload@.len() < 18 ==> r is None,
        pkt.payload@.len() >= 18 ==> ({
            let b = pkt.payload@;
            exists|t: KadId| t.0@ == id_at(b, 0) && r is Some
                && r->Some_0@ == packet_bytes(KADEMLIA2_SEARCH_RES, search_res_keyword_bytes(crypto.my_kad_id, t,
                    #[trigger] search_results(store.entries@, t.0@, le16(b, 16) % 32768)))
        }),
{
    routing.mark_seen_by_dest(from_dest_b64, now);
    let req = match decode_kad2_search_key_req(pkt.payload.as_slice()) {
        Ok(q) => q,
        Err(_) => {
            return None;
        },
    };
    let hits = store.hits_for(&req.target, req.start_position as usize, 64);
    let mut results: Vec<(KadId, String, u64, Option<String>)> = Vec::new();
    let mut i: usize = 0;
    while i < hits.len()
        invariant
            i <= hits@.len(),
            results@ == hits@.take(i as int).map_values(|h: KadKeywordHit| result_tuple(h)),
        decreases hits@.len() - i,
    {
        let h = &hits[i];
        let ft: Option<String> = match &h.file_type {
            Some(t) => Some(t.clone()),
            None => None,
        };
        results.push((h.file_id, h.filename.clone(), h.file_size, ft));
        i += 1;
        assert(results@ =~= hits@.take(i as int).map_values(|h: KadKeywordHit| result_tuple(h)));
    }
    assert(hits@.take(hits@.len() as int) =~= hits@);
    let payload = encode_kad2_search_res_keyword(crypto.my_kad_id, req.target, results.as_slice());
    let out = KadPacket::encode(KADEMLIA2_SEARCH_RES, payload.as_slice());
    assert(search_results(store.entries@, req.target.0@, le16(pkt.payload@, 16) % 32768) == results@);
    Some(out)
}

/// PUBLISH_KEY_REQ: the sender is marked seen. When the keyword and count
/// decode, the entries read are stored (`KeywordHits::accept_publish`);
/// when at least the keyword decodes, it is acknowledged with a key-shaped
/// PUBLISH_RES (load 0). A payload too short for the keyword gets no answer.
pub fn answer_publish_key_req(routing: &mut RoutingTable, store: &mut KeywordHits, cfg: &KadServiceConfig,
    from_dest_b64: &str, pkt: &InboundPacket, now: u64) -> (r: Option<Vec<u8>>)
    requires
        old(routing).wf(),
        old(store).wf(),
    ensures
        final(routing).wf(),
        final(store).wf(),
        seen_marked(*old(routing), *final(routing), from_dest_b64@, now),
        pkt.payload@.len() < 16 ==> r is None && final(store).entries@ == old(store).entries@,
        pkt.payload@.len() >= 16 ==> exists|k: KadId| k.0@ == id_at(pkt.payload@, 0) && r is Some
            && r->Some_0@ == packet_bytes(KADEMLIA2_PUBLISH_RES, #[trigger] publish_res_key_bytes(k, 0)),
        pkt.payload@.len() < 18 ==> final(store).entries@ == old(store).entries@,
        pkt.payload@.len() >= 18 ==> ({
            let b = pkt.payload@;
            let decoded = lenient_entries(b, 18, le16(b, 16) as nat, seq![]).0;
            exists|k: KadId, es: Seq<Kad2PublishKeyEntry>| k.0@ == id_at(b, 0)
                && es.map_values(|e: Kad2PublishKeyEntry| key_entry_view(e)) == decoded.map_values(|x| key_entry_model(x))
                && final(store).entries@ == (#[trigger] stored_after(old(store).entries@, k, es, now, *cfg))
        }),
{
    routing.mark_seen_by_dest(from_dest_b64, now);
    let keyword = match decode_kad2_publish_key_req_lenient(pkt.payload.as_slice()) {
        Ok(req) => {
            let kw = req.keyword;
            let ghost es = req.entries@;
            store.accept_publish(cfg, kw, req.entries, now);
            assert(store.entries@ == stored_after(old(store).entries@, kw, es, now, *cfg));
            kw
        },
        Err(_) => {
            match decode_kad2_publish_key_keyword_prefix(pkt.payload.as_slice()) {
                Ok(k) => k,
                Err(_) => {
                    return None;
                },
            }
        },
    };
    let payload = encode_kad2_publish_res_for_key(keyword, 0);
    Some(KadPacket::encode(KADEMLIA2_PUBLISH_RES, payload.as_slice()))
}

/// The store after accepting the entries `es` published under `kw`.
pub open spec fn stored_after(s: Seq<crate::kad::service::keyword::KeywordEntry>, kw: KadId, es: Seq<Kad2PublishKeyEntry>,
    now: u64, cfg: KadServiceConfig) -> Seq<crate::kad::service::keyword::KeywordEntry>
{
    let (s1, n) = publish_all(s, kw, es, now);
    if n > 0 { store_limited(s1, cfg.store_keyword_max_keywords, cfg.store_keyword_max_total_hits) } else { s1 }
}


/// Whether `from` is the base64 of a full-length destination.
pub open spec fn has_dest_bytes(from: Seq<char>) -> bool {
    exists|d: Seq<u8>| b64_spec(d) == from && d.len() == 387
}

/// PUBLISH_SOURCE_REQ: the sender is marked seen. A request that decodes
/// (32 bytes or more) stores the sender's destination as the named source
/// of the named file, when the sender's name decodes to a full
/// destination, and is answered with the file's source count (as both
/// counts, load 0).
pub fn answer_publish_source_req(routing: &mut RoutingTable, store: &mut SourceStore, from_dest_b64: &str,
    pkt: &InboundPacket, now: u64) -> (r: Option<Vec<u8>>)
    requires
        old(routing).wf(),
        old(store).wf(),
    ensures
        final(routing).wf(),
        final(store).wf(),
        seen_marked(*old(routing), *final(routing), from_dest_b64@, now),
        pkt.payload@.len() < 32 ==> r is None && final(store).entries@ == old(store).entries@,
        pkt.payload@.len() >= 32 ==> ({
            let b = pkt.payload@;
            exists|f: KadId, src: KadId| #![trigger f.0@, src.0@] f.0@ == id_at(b, 0) && src.0@ == id_at(b, 16)
                && (has_dest_bytes(from_dest_b64@) ==> exists|d: [u8; 387]| b64_spec(d@) == from_dest_b64@
                    && final(store).entries@ == #[trigger] stored_source(old(store).entries@, SourceEntry { file: f, source: src, dest: d }))
                && (!has_dest_bytes(from_dest_b64@) ==> final(store).entries@ == old(store).entries@)
                && r is Some && r->Some_0@ == packet_bytes(KADEMLIA2_PUBLISH_RES, publish_res_source_bytes(f,
                    sources_of(final(store).entries@, f.0@).len() as u32, sources_of(final(store).entries@, f.0@).len() as u32, 0))
        }),
{
    routing.mark_seen_by_dest(from_dest_b64, now);
    let req = match decode_kad2_publish_source_req_min(pkt.payload.as_slice()) {
        Ok(q) => q,
        Err(_) => {
            return None;
        },
    };
    match decode(from_dest_b64) {
        Some(raw) => {
            if raw.len() == 387 {
                let dest = copy_dest(raw.as_slice(), 0);
                assert(dest@ =~= raw@);
                store.insert(req.file, req.source, dest);
            } else {
                proof {
                    assert forall|x: Seq<u8>| b64_spec(x) == from_dest_b64@ implies x.len() != 387 by {
                        law_b64_roundtrip(x);
                        law_b64_roundtrip(raw@);
                    }
                }
            }
        },
        None => {},
    }
    let count = store.count_for(&req.file);
    let c32 = count as u32;
    let payload = encode_kad2_publish_res_for_source(req.file, c32, c32, 0);
    Some(KadPacket::encode(KADEMLIA2_PUBLISH_RES, payload.as_slice()))
}

/// SEARCH_SOURCE_REQ: the sender is marked seen; a request that decodes (26
/// bytes or more) is answered with up to 64 stored sources of its file from
/// its start position on.
pub fn answer_search_source_req(routing: &mut RoutingTable, store: &SourceStore, from_dest_b64: &str,
    pkt: &InboundPacket, crypto: &KadServiceCrypto, now: u64) -> (r: Option<Vec<u8>>)
    requires
        old(routing).wf(),
    ensures
        final(routing).wf(),
        seen_marked(*old(routing), *final(routing), from_dest_b64@, now),
        pkt.payload@.len() < 26 ==> r is None,
        pkt.payload@.len() >= 26 ==> ({
            let b = pkt.payload@;
            exists|t: KadId| t.0@ == id_at(b, 0) && r is Some
                && r->Some_0@ == packet_bytes(KADEMLIA2_SEARCH_RES, search_res_sources_bytes(crypto.my_kad_id, t,
                    window(source_pairs(#[trigger] sources_of(store.entries@, t.0@)), le16(b, 16) % 32768, 64)))
        }),
{
    routing.mark_seen_by_dest(from_dest_b64, now);
    let req = match decode_kad2_search_source_req(pkt.payload.as_slice()) {
        Ok(q) => q,
        Err(_) => {
            return None;
        },
    };
    let results = store.sources_for(&req.target, req.start_position as usize, 64);
    let payload = encode_kad2_search_res_sources(crypto.my_kad_id, req.target, results.as_slice());
    Some(KadPacket::encode(KADEMLIA2_SEARCH_RES, payload.as_slice()))
}

} // verus!
