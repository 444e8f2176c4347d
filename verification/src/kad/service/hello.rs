//! The HELLO exchange and the replies that only refresh the sender: what a
//! HELLO_REQ or HELLO_RES teaches the routing table, the HELLO_RES we
//! answer with, the HELLO_RES_ACK we owe, and PONG / HELLO_RES_ACK intake.
//! Obfuscating and sending happen outside; times are nanoseconds.

use vstd::prelude::*;
use crate::i2p::b64::{b64_spec, decode, law_b64_roundtrip};
use crate::kad::id::{crypt_order, KadId};
use vstd::utf8::encode_utf8;
use crate::kad::routing::{
    bucket_for, greeted_by, seen_marked, touched, upsert_effect, NodeModel, RoutingTable, UpsertOutcome,
};
use crate::kad::routing::opt_str_view;
use crate::kad::service::inbound::InboundPacket;
use crate::kad::service::types::KadServiceCrypto;
use crate::kad::wire::decode::hello_decode;
use crate::kad::wire::encode::{agent_string, hello_bytes, packet_bytes};
use crate::kad::wire::{
    decode_kad2_hello, encode_kad2_hello, Kad2Hello, KadPacket, KADEMLIA2_HELLO_RES, KADEMLIA2_HELLO_RES_ACK,
    TAG_KADMISCOPTIONS,
};
use crate::nodes::imule::{copy_dest, ImuleNode, ImuleNodeView};

verus! {

/// The Kad version we announce in a HELLO_RES.
pub const HELLO_RES_KAD_VERSION: u8 = 8;
/// The misc-options bit that asks for a HELLO_RES_ACK.
pub const MISC_WANTS_ACK: u8 = 0x04;

/// The node a HELLO tells us of: its version and identifier, the
/// destination it came from; keys only when it came obfuscated.
pub open spec fn hello_node(ver: u8, id: Seq<u8>, dest: Seq<u8>, pkt: InboundPacket, my_dest_hash: u32) -> ImuleNodeView {
    ImuleNodeView {
        kad_version: ver,
        client_id: id,
        udp_dest: dest,
        udp_key: if pkt.was_obfuscated { pkt.sender_verify_key } else { 0 },
        udp_key_ip: if pkt.was_obfuscated { my_dest_hash } else { 0 },
        verified: pkt.valid_receiver_key,
    }
}

/// The table after upserting the sender of a HELLO: when its destination
/// decodes to a full destination the node is upserted, otherwise nothing
/// changes.
pub open spec fn learned_hello_sender(a: RoutingTable, m: RoutingTable, from: Seq<char>, ver: u8, id: Seq<u8>,
    pkt: InboundPacket, my_dest_hash: u32, now: u64) -> bool
{
    if exists|raw: Seq<u8>| b64_spec(raw) == from && raw.len() == 387 {
        let raw = choose|raw: Seq<u8>| b64_spec(raw) == from && raw.len() == 387;
        exists|r: UpsertOutcome| upsert_effect(a, m, hello_node(ver, id, raw, pkt, my_dest_hash), now, r)
    } else {
        m == a
    }
}

/// The table after a HELLO from `dest` at `now` (see `greeted_by`).
pub open spec fn hello_marked(a: RoutingTable, b: RoutingTable, dest: Seq<char>, now: u64) -> bool {
    &&& b.me() == a.me()
    &&& b.refreshed() == a.refreshed()
    &&& b.dest_table() == a.dest_table()
    &&& match a.node_for_dest(dest) {
        Some(st) => b.by_id_map() == a.by_id_map().insert(st.node.client_id, greeted_by(st, now))
            && b.activity() == touched(a.activity(), bucket_for(a.me().0@, st.node.client_id), now),
        None => b == a,
    }
}

/// The table after learning the agent a HELLO announced: kept unless the
/// node had none.
pub open spec fn agent_learned(a: RoutingTable, b: RoutingTable, dest: Seq<char>, agent: Option<Seq<char>>) -> bool {
    match agent {
        None => b == a,
        Some(ag) => {
            &&& b.me() == a.me()
            &&& b.refreshed() == a.refreshed()
            &&& b.dest_table() == a.dest_table()
            &&& match a.node_for_dest(dest) {
                Some(st) => b.by_id_map() == a.by_id_map().insert(st.node.client_id,
                    NodeModel { peer_agent: if st.peer_agent is None { Some(ag) } else { st.peer_agent }, ..st })
                    && b.activity() == a.activity(),
                None => b == a,
            }
        },
    }
}

/// What a decoded HELLO does to the table: the sender is upserted, marked
/// as having greeted us, and its agent learned.
pub open spec fn hello_learned(a: RoutingTable, b: RoutingTable, from: Seq<char>, hello: Kad2Hello,
    pkt: InboundPacket, my_dest_hash: u32, now: u64) -> bool
{
    exists|m1: RoutingTable, m2: RoutingTable|
        #![trigger learned_hello_sender(a, m1, from, hello.kad_version, hello.node_id.0@, pkt, my_dest_hash, now), hello_marked(m1, m2, from, now)]
        learned_hello_sender(a, m1, from, hello.kad_version, hello.node_id.0@, pkt, my_dest_hash, now)
        && hello_marked(m1, m2, from, now)
        && agent_learned(m2, b, from, opt_str_view(hello.agent))
}

/// Applies a decoded HELLO from `from_dest_b64` to the table.
#[verifier::spinoff_prover]
pub fn learn_hello(routing: &mut RoutingTable, from_dest_b64: &str, pkt: &InboundPacket, hello: &Kad2Hello,
    crypto: &KadServiceCrypto, now: u64)
    requires
        old(routing).wf(),
    ensures
        final(routing).wf(),
        hello_learned(*old(routing), *final(routing), from_dest_b64@, *hello, *pkt, crypto.my_dest_hash, now),
{
    let ghost r0 = *routing;
    match decode(from_dest_b64) {
        Some(raw) => {
            if raw.len() == 387 {
                let udp_dest = copy_dest(raw.as_slice(), 0);
                assert(udp_dest@ =~= raw@);
                let node = ImuleNode {
                    kad_version: hello.kad_version,
                    client_id: hello.node_id.0,
                    udp_dest,
                    udp_key: if pkt.was_obfuscated { pkt.sender_verify_key } else { 0 },
                    udp_key_ip: if pkt.was_obfuscated { crypto.my_dest_hash } else { 0 },
                    verified: pkt.valid_receiver_key,
                };
                let _ = routing.upsert(node, now);
                proof {
                    let c = choose|x: Seq<u8>| b64_spec(x) == from_dest_b64@ && x.len() == 387;
                    law_b64_roundtrip(c);
                    law_b64_roundtrip(raw@);
                    assert(node@ == hello_node(hello.kad_version, hello.node_id.0@, c, *pkt, crypto.my_dest_hash));
                }
            } else {
                proof {
                    assert forall|x: Seq<u8>| b64_spec(x) == from_dest_b64@ implies x.len() != 387 by {
                        law_b64_roundtrip(x);
                        law_b64_roundtrip(raw@);
                    }
                }
            }
        },
        None => {
            proof {
                assert forall|x: Seq<u8>| b64_spec(x) == from_dest_b64@ implies x.len() != 387 by {
                    law_b64_roundtrip(x);
                }
            }
        },
    }
    let ghost m1 = *routing;
    assert(learned_hello_sender(r0, m1, from_dest_b64@, hello.kad_version, hello.node_id.0@, *pkt,
        crypto.my_dest_hash, now));
    routing.mark_received_hello_by_dest(from_dest_b64, now);
    let ghost m2 = *routing;
    match &hello.agent {
        Some(agent) => {
            routing.set_peer_agent_if_unset_by_dest(from_dest_b64, agent.as_str());
        },
        None => {},
    }
    assert(hello_marked(m1, m2, from_dest_b64@, now));
    assert(agent_learned(m2, *routing, from_dest_b64@, opt_str_view(hello.agent)));
}

/// Our HELLO_RES payload: our HELLO with a second tag, the misc options
/// asking for a HELLO_RES_ACK.
pub open spec fn hello_res_bytes(my_id: KadId, my_dest: Seq<u8>) -> Seq<u8> {
    hello_bytes(HELLO_RES_KAD_VERSION, my_id, my_dest, encode_utf8(agent_string())).update(404, 2u8)
        + seq![0x89u8, TAG_KADMISCOPTIONS, MISC_WANTS_ACK]
}

/// A HELLO reply to send: the plain packet, and the identifier to
/// obfuscate it toward when it must go out obfuscated.
#[derive(Debug)]
pub struct HelloReply {
    pub plain: Vec<u8>,
    pub obfuscate_to: Option<KadId>,
}

/// HELLO_REQ: nothing when the payload does not decode (the table is left
/// alone); otherwise the sender is learned, and the reply is our HELLO_RES,
/// to go out obfuscated toward the sender when it is Kad 6 or later and
/// wrote to us obfuscated.
#[verifier::spinoff_prover]
pub fn answer_hello_req(routing: &mut RoutingTable, from_dest_b64: &str, pkt: &InboundPacket,
    crypto: &KadServiceCrypto, now: u64) -> (r: Option<HelloReply>)
    requires
        old(routing).wf(),
    ensures
        final(routing).wf(),
        hello_decode(pkt.payload@) is Err ==> r is None && *final(routing) == *old(routing),
        match hello_decode(pkt.payload@) {
            Ok((ver, id, dest, m)) => r is Some && {
                let rep = r->Some_0;
                &&& exists|h: Kad2Hello| h.kad_version == ver && h.node_id.0@ == id && opt_str_view(h.agent) == m.agent
                    && #[trigger] hello_learned(*old(routing), *final(routing), from_dest_b64@, h, *pkt,
                        crypto.my_dest_hash, now)
                &&& rep.plain@ == packet_bytes(KADEMLIA2_HELLO_RES, hello_res_bytes(crypto.my_kad_id, crypto.my_dest@))
                &&& (rep.obfuscate_to is Some <==> ver >= 6 && pkt.was_obfuscated)
                &&& rep.obfuscate_to is Some ==> rep.obfuscate_to->Some_0.0@ == id
            },
            Err(_) => true,
        },
{
    let hello = match decode_kad2_hello(pkt.payload.as_slice()) {
        Ok(h) => h,
        Err(_) => {
            return None;
        },
    };
    learn_hello(routing, from_dest_b64, pkt, &hello, crypto, now);
    let mut body = encode_kad2_hello(HELLO_RES_KAD_VERSION, crypto.my_kad_id, &crypto.my_dest);
    assert(crypt_order(crypto.my_kad_id.0@).len() == 16);
    assert(body@.len() > 404);
    body.set(404, 2);
    body.push(0x89);
    body.push(TAG_KADMISCOPTIONS);
    body.push(MISC_WANTS_ACK);
    assert(body@ =~= hello_res_bytes(crypto.my_kad_id, crypto.my_dest@));
    let plain = KadPacket::encode(KADEMLIA2_HELLO_RES, body.as_slice());
    let obfuscate_to = if hello.kad_version >= 6 && pkt.was_obfuscated { Some(hello.node_id) } else { None };
    Some(HelloReply { plain, obfuscate_to })
}

/// The misc options a HELLO carries (zero without the tag).
pub open spec fn misc_options(ints: Map<u8, u64>) -> u8 {
    if ints.contains_key(TAG_KADMISCOPTIONS) { ints[TAG_KADMISCOPTIONS] as u8 } else { 0 }
}

/// Our HELLO_RES_ACK: our identifier (Kad byte order) and an empty taglist.
pub open spec fn hello_ack_bytes(my_id: KadId) -> Seq<u8> {
    crypt_order(my_id.0@) + seq![0u8]
}

/// What a HELLO_RES asks of us.
#[derive(Debug)]
pub enum HelloAck {
    /// Send this HELLO_RES_ACK, obfuscated with the sender's key.
    Send(Vec<u8>),
    /// An ack was asked for, but the sender gave no key to obfuscate it with.
    SkippedNoKey,
    /// No ack was asked for.
    NotAsked,
}

/// The misc-options tag of a HELLO, zero without it.
fn misc_tag(hello: &Kad2Hello) -> (v: u64)
    ensures
        v == (if hello.tags@.contains_key(TAG_KADMISCOPTIONS) { hello.tags@[TAG_KADMISCOPTIONS] } else { 0 }),
{
    broadcast use vstd::laws_cmp::group_laws_cmp, vstd::std_specs::btree::group_btree_axioms;
    match hello.tags.get(&TAG_KADMISCOPTIONS) {
        Some(v) => *v,
        None => 0,
    }
}

/// HELLO_RES: nothing when the payload does not decode (the table is left
/// alone); otherwise the sender is learned, and an ack is owed when its
/// misc options ask for one and it gave us a key.
#[verifier::spinoff_prover]
pub fn take_hello_res(routing: &mut RoutingTable, from_dest_b64: &str, pkt: &InboundPacket,
    crypto: &KadServiceCrypto, now: u64) -> (r: Option<HelloAck>)
    requires
        old(routing).wf(),
    ensures
        final(routing).wf(),
        hello_decode(pkt.payload@) is Err ==> r is None && *final(routing) == *old(routing),
        match hello_decode(pkt.payload@) {
            Ok((ver, id, dest, m)) => r is Some && {
                let wants = misc_options(m.ints) & MISC_WANTS_ACK != 0;
                &&& exists|h: Kad2Hello| h.kad_version == ver && h.node_id.0@ == id && opt_str_view(h.agent) == m.agent
                    && #[trigger] hello_learned(*old(routing), *final(routing), from_dest_b64@, h, *pkt,
                        crypto.my_dest_hash, now)
                &&& match r->Some_0 {
                    HelloAck::Send(plain) => wants && pkt.sender_verify_key != 0
                        && plain@ == packet_bytes(KADEMLIA2_HELLO_RES_ACK, hello_ack_bytes(crypto.my_kad_id)),
                    HelloAck::SkippedNoKey => wants && pkt.sender_verify_key == 0,
                    HelloAck::NotAsked => !wants,
                }
            },
            Err(_) => true,
        },
{
    let hello = match decode_kad2_hello(pkt.payload.as_slice()) {
        Ok(h) => h,
        Err(_) => {
            return None;
        },
    };
    learn_hello(routing, from_dest_b64, pkt, &hello, crypto, now);
    let misc: u8 = misc_tag(&hello) as u8;
    assert(misc == misc_options(hello.tags@));
    let wants = misc & MISC_WANTS_ACK != 0;
    if !wants {
        return Some(HelloAck::NotAsked);
    }
    if pkt.sender_verify_key == 0 {
        return Some(HelloAck::SkippedNoKey);
    }
    let id = crypto.my_kad_id.to_crypt_bytes();
    let mut body: Vec<u8> = Vec::new();
    let mut k: usize = 0;
    while k < 16
        invariant
            k <= 16,
            body@ == id@.take(k as int),
        decreases 16 - k,
    {
        body.push(id[k]);
        k += 1;
        assert(body@ =~= id@.take(k as int));
    }
    body.push(0);
    assert(id@.take(16) =~= id@);
    assert(body@ =~= hello_ack_bytes(crypto.my_kad_id));
    Some(HelloAck::Send(KadPacket::encode(KADEMLIA2_HELLO_RES_ACK, body.as_slice())))
}

/// PONG and HELLO_RES_ACK: the sender is marked seen.
pub fn take_seen_reply(routing: &mut RoutingTable, from_dest_b64: &str, now: u64)
    requires
        old(routing).wf(),
    ensures
        final(routing).wf(),
        seen_marked(*old(routing), *final(routing), from_dest_b64@, now),
{
    routing.mark_seen_by_dest(from_dest_b64, now);
}

} // verus!
