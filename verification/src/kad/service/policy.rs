//! Opcode classification and small rules of the KAD service.

use vstd::prelude::*;
use crate::kad::wire::{
    KADEMLIA_HELLO_REQ_DEPRECATED, KADEMLIA_HELLO_RES_DEPRECATED, KADEMLIA_PUBLISH_NOTES_REQ_DEPRECATED,
    KADEMLIA_PUBLISH_REQ_DEPRECATED, KADEMLIA_PUBLISH_RES_DEPRECATED, KADEMLIA_REQ_DEPRECATED,
    KADEMLIA_RES_DEPRECATED, KADEMLIA_SEARCH_NOTES_REQ_DEPRECATED, KADEMLIA_SEARCH_REQ_DEPRECATED,
    KADEMLIA_SEARCH_RES_DEPRECATED, KADEMLIA2_BOOTSTRAP_REQ, KADEMLIA2_BOOTSTRAP_RES,
    KADEMLIA2_HELLO_REQ, KADEMLIA2_HELLO_RES, KADEMLIA2_HELLO_RES_ACK, KADEMLIA2_PING,
    KADEMLIA2_PONG, KADEMLIA2_PUBLISH_KEY_REQ, KADEMLIA2_PUBLISH_RES, KADEMLIA2_PUBLISH_SOURCE_REQ,
    KADEMLIA2_REQ, KADEMLIA2_RES, KADEMLIA2_SEARCH_KEY_REQ, KADEMLIA2_SEARCH_RES,
    KADEMLIA2_SEARCH_SOURCE_REQ,
};
use crate::kad::service::types::KadServiceConfig;
use crate::nodes::imule::ImuleNode;
use crate::text::{chars_to_string, hex_digit, hex_digit_exec};

verus! {

/// The request kind an opcode counts as, or `None` for responses and
/// unknown opcodes.
pub open spec fn canonical_request_spec(op: u8) -> Option<u8> {
    if op == KADEMLIA2_BOOTSTRAP_REQ {
        Some(KADEMLIA2_BOOTSTRAP_REQ)
    } else if op == KADEMLIA_HELLO_REQ_DEPRECATED || op == KADEMLIA2_HELLO_REQ {
        Some(KADEMLIA2_HELLO_REQ)
    } else if op == KADEMLIA2_HELLO_RES {
        Some(KADEMLIA2_HELLO_RES)
    } else if op == KADEMLIA_REQ_DEPRECATED || op == KADEMLIA2_REQ {
        Some(KADEMLIA2_REQ)
    } else if op == KADEMLIA2_SEARCH_KEY_REQ || op == KADEMLIA2_SEARCH_SOURCE_REQ
        || op == KADEMLIA2_PUBLISH_KEY_REQ || op == KADEMLIA2_PUBLISH_SOURCE_REQ || op == KADEMLIA2_PING {
        Some(op)
    } else {
        None
    }
}

pub fn canonical_request_opcode(opcode: u8) -> (r: Option<u8>)
    ensures
        r == canonical_request_spec(opcode),
{
    if opcode == KADEMLIA2_BOOTSTRAP_REQ {
        Some(KADEMLIA2_BOOTSTRAP_REQ)
    } else if opcode == KADEMLIA_HELLO_REQ_DEPRECATED || opcode == KADEMLIA2_HELLO_REQ {
        Some(KADEMLIA2_HELLO_REQ)
    } else if opcode == KADEMLIA2_HELLO_RES {
        Some(KADEMLIA2_HELLO_RES)
    } else if opcode == KADEMLIA_REQ_DEPRECATED || opcode == KADEMLIA2_REQ {
        Some(KADEMLIA2_REQ)
    } else if opcode == KADEMLIA2_SEARCH_KEY_REQ || opcode == KADEMLIA2_SEARCH_SOURCE_REQ
        || opcode == KADEMLIA2_PUBLISH_KEY_REQ || opcode == KADEMLIA2_PUBLISH_SOURCE_REQ
        || opcode == KADEMLIA2_PING {
        Some(opcode)
    } else {
        None
    }
}

/// The request kinds a response may answer (a 17-byte `PUBLISH_RES` only
/// answers a keyword publish), or `None` when the opcode is not a tracked
/// response.
pub open spec fn expected_requests_spec(op: u8, payload_len: usize) -> Option<Seq<u8>> {
    if op == KADEMLIA2_BOOTSTRAP_RES {
        Some(seq![KADEMLIA2_BOOTSTRAP_REQ])
    } else if op == KADEMLIA2_HELLO_RES {
        Some(seq![KADEMLIA2_HELLO_REQ])
    } else if op == KADEMLIA2_HELLO_RES_ACK {
        Some(seq![KADEMLIA2_HELLO_RES])
    } else if op == KADEMLIA_RES_DEPRECATED || op == KADEMLIA2_RES {
        Some(seq![KADEMLIA2_REQ])
    } else if op == KADEMLIA2_SEARCH_RES {
        Some(seq![KADEMLIA2_SEARCH_KEY_REQ, KADEMLIA2_SEARCH_SOURCE_REQ])
    } else if op == KADEMLIA2_PONG {
        Some(seq![KADEMLIA2_PING])
    } else if op == KADEMLIA2_PUBLISH_RES {
        if payload_len == 17 {
            Some(seq![KADEMLIA2_PUBLISH_KEY_REQ])
        } else {
            Some(seq![KADEMLIA2_PUBLISH_SOURCE_REQ, KADEMLIA2_PUBLISH_KEY_REQ])
        }
    } else {
        None
    }
}

pub fn response_expected_request_opcodes(response_opcode: u8, payload_len: usize) -> (r: Option<Vec<u8>>)
    ensures
        match (r, expected_requests_spec(response_opcode, payload_len)) {
            (Some(v), Some(s)) => v@ == s,
            (None, None) => true,
            _ => false,
        },
{
    let op = response_opcode;
    let v: Vec<u8> = if op == KADEMLIA2_BOOTSTRAP_RES {
        vec![KADEMLIA2_BOOTSTRAP_REQ]
    } else if op == KADEMLIA2_HELLO_RES {
        vec![KADEMLIA2_HELLO_REQ]
    } else if op == KADEMLIA2_HELLO_RES_ACK {
        vec![KADEMLIA2_HELLO_RES]
    } else if op == KADEMLIA_RES_DEPRECATED || op == KADEMLIA2_RES {
        vec![KADEMLIA2_REQ]
    } else if op == KADEMLIA2_SEARCH_RES {
        vec![KADEMLIA2_SEARCH_KEY_REQ, KADEMLIA2_SEARCH_SOURCE_REQ]
    } else if op == KADEMLIA2_PONG {
        vec![KADEMLIA2_PING]
    } else if op == KADEMLIA2_PUBLISH_RES {
        if payload_len == 17 {
            vec![KADEMLIA2_PUBLISH_KEY_REQ]
        } else {
            vec![KADEMLIA2_PUBLISH_SOURCE_REQ, KADEMLIA2_PUBLISH_KEY_REQ]
        }
    } else {
        return None;
    };
    proof {
        let s = expected_requests_spec(op, payload_len);
        assert(s is Some);
        assert(v@ =~= s->Some_0);
    }
    Some(v)
}

/// Inbound requests allowed per minute and per sender for a request kind.
pub open spec fn request_limit_spec(op: u8) -> Option<(u8, u32)> {
    match canonical_request_spec(op) {
        None => None,
        Some(c) => if c == KADEMLIA2_BOOTSTRAP_REQ || c == KADEMLIA2_PING {
            Some((c, 2u32))
        } else if c == KADEMLIA2_HELLO_REQ {
            Some((c, 3u32))
        } else if c == KADEMLIA2_REQ || c == KADEMLIA2_SEARCH_KEY_REQ || c == KADEMLIA2_SEARCH_SOURCE_REQ
            || c == KADEMLIA2_PUBLISH_KEY_REQ || c == KADEMLIA2_PUBLISH_SOURCE_REQ {
            Some((c, 30u32))
        } else {
            None
        },
    }
}

pub fn inbound_request_limit_per_minute(opcode: u8) -> (r: Option<(u8, u32)>)
    ensures
        r == request_limit_spec(opcode),
{
    let canonical = match canonical_request_opcode(opcode) {
        Some(c) => c,
        None => return None,
    };
    let limit: u32 = if canonical == KADEMLIA2_BOOTSTRAP_REQ || canonical == KADEMLIA2_PING {
        2
    } else if canonical == KADEMLIA2_HELLO_REQ {
        3
    } else if canonical == KADEMLIA2_REQ || canonical == KADEMLIA2_SEARCH_KEY_REQ
        || canonical == KADEMLIA2_SEARCH_SOURCE_REQ || canonical == KADEMLIA2_PUBLISH_KEY_REQ
        || canonical == KADEMLIA2_PUBLISH_SOURCE_REQ {
        30
    } else {
        return None;
    };
    Some((canonical, limit))
}

/// Name of an opcode for logs.
pub open spec fn opcode_name_spec(op: u8) -> Seq<char> {
    if op == KADEMLIA_HELLO_REQ_DEPRECATED { "KADEMLIA_HELLO_REQ"@ }
    else if op == KADEMLIA_HELLO_RES_DEPRECATED { "KADEMLIA_HELLO_RES"@ }
    else if op == KADEMLIA_REQ_DEPRECATED { "KADEMLIA_REQ"@ }
    else if op == KADEMLIA_RES_DEPRECATED { "KADEMLIA_RES"@ }
    else if op == KADEMLIA_SEARCH_REQ_DEPRECATED { "KADEMLIA_SEARCH_REQ"@ }
    else if op == KADEMLIA_SEARCH_RES_DEPRECATED { "KADEMLIA_SEARCH_RES"@ }
    else if op == KADEMLIA_SEARCH_NOTES_REQ_DEPRECATED { "KADEMLIA_SEARCH_NOTES_REQ"@ }
    else if op == KADEMLIA_PUBLISH_REQ_DEPRECATED { "KADEMLIA_PUBLISH_REQ"@ }
    else if op == KADEMLIA_PUBLISH_RES_DEPRECATED { "KADEMLIA_PUBLISH_RES"@ }
    else if op == KADEMLIA_PUBLISH_NOTES_REQ_DEPRECATED { "KADEMLIA_PUBLISH_NOTES_REQ"@ }
    else if op == KADEMLIA2_BOOTSTRAP_REQ { "KADEMLIA2_BOOTSTRAP_REQ"@ }
    else if op == KADEMLIA2_BOOTSTRAP_RES { "KADEMLIA2_BOOTSTRAP_RES"@ }
    else if op == KADEMLIA2_HELLO_REQ { "KADEMLIA2_HELLO_REQ"@ }
    else if op == KADEMLIA2_HELLO_RES { "KADEMLIA2_HELLO_RES"@ }
    else if op == KADEMLIA2_REQ { "KADEMLIA2_REQ"@ }
    else if op == KADEMLIA2_HELLO_RES_ACK { "KADEMLIA2_HELLO_RES_ACK"@ }
    else if op == KADEMLIA2_RES { "KADEMLIA2_RES"@ }
    else if op == KADEMLIA2_SEARCH_KEY_REQ { "KADEMLIA2_SEARCH_KEY_REQ"@ }
    else if op == KADEMLIA2_SEARCH_SOURCE_REQ { "KADEMLIA2_SEARCH_SOURCE_REQ"@ }
    else if op == KADEMLIA2_SEARCH_RES { "KADEMLIA2_SEARCH_RES"@ }
    else if op == KADEMLIA2_PUBLISH_KEY_REQ { "KADEMLIA2_PUBLISH_KEY_REQ"@ }
    else if op == KADEMLIA2_PUBLISH_SOURCE_REQ { "KADEMLIA2_PUBLISH_SOURCE_REQ"@ }
    else if op == KADEMLIA2_PUBLISH_RES { "KADEMLIA2_PUBLISH_RES"@ }
    else if op == KADEMLIA2_PING { "KADEMLIA2_PING"@ }
    else if op == KADEMLIA2_PONG { "KADEMLIA2_PONG"@ }
    else { "UNKNOWN"@ }
}

pub fn kad_opcode_name(opcode: u8) -> (s: &'static str)
    ensures
        s@ == opcode_name_spec(opcode),
{
    let op = opcode;
    if op == KADEMLIA_HELLO_REQ_DEPRECATED { "KADEMLIA_HELLO_REQ" }
    else if op == KADEMLIA_HELLO_RES_DEPRECATED { "KADEMLIA_HELLO_RES" }
    else if op == KADEMLIA_REQ_DEPRECATED { "KADEMLIA_REQ" }
    else if op == KADEMLIA_RES_DEPRECATED { "KADEMLIA_RES" }
    else if op == KADEMLIA_SEARCH_REQ_DEPRECATED { "KADEMLIA_SEARCH_REQ" }
    else if op == KADEMLIA_SEARCH_RES_DEPRECATED { "KADEMLIA_SEARCH_RES" }
    else if op == KADEMLIA_SEARCH_NOTES_REQ_DEPRECATED { "KADEMLIA_SEARCH_NOTES_REQ" }
    else if op == KADEMLIA_PUBLISH_REQ_DEPRECATED { "KADEMLIA_PUBLISH_REQ" }
    else if op == KADEMLIA_PUBLISH_RES_DEPRECATED { "KADEMLIA_PUBLISH_RES" }
    else if op == KADEMLIA_PUBLISH_NOTES_REQ_DEPRECATED { "KADEMLIA_PUBLISH_NOTES_REQ" }
    else if op == KADEMLIA2_BOOTSTRAP_REQ { "KADEMLIA2_BOOTSTRAP_REQ" }
    else if op == KADEMLIA2_BOOTSTRAP_RES { "KADEMLIA2_BOOTSTRAP_RES" }
    else if op == KADEMLIA2_HELLO_REQ { "KADEMLIA2_HELLO_REQ" }
    else if op == KADEMLIA2_HELLO_RES { "KADEMLIA2_HELLO_RES" }
    else if op == KADEMLIA2_REQ { "KADEMLIA2_REQ" }
    else if op == KADEMLIA2_HELLO_RES_ACK { "KADEMLIA2_HELLO_RES_ACK" }
    else if op == KADEMLIA2_RES { "KADEMLIA2_RES" }
    else if op == KADEMLIA2_SEARCH_KEY_REQ { "KADEMLIA2_SEARCH_KEY_REQ" }
    else if op == KADEMLIA2_SEARCH_SOURCE_REQ { "KADEMLIA2_SEARCH_SOURCE_REQ" }
    else if op == KADEMLIA2_SEARCH_RES { "KADEMLIA2_SEARCH_RES" }
    else if op == KADEMLIA2_PUBLISH_KEY_REQ { "KADEMLIA2_PUBLISH_KEY_REQ" }
    else if op == KADEMLIA2_PUBLISH_SOURCE_REQ { "KADEMLIA2_PUBLISH_SOURCE_REQ" }
    else if op == KADEMLIA2_PUBLISH_RES { "KADEMLIA2_PUBLISH_RES" }
    else if op == KADEMLIA2_PING { "KADEMLIA2_PING" }
    else if op == KADEMLIA2_PONG { "KADEMLIA2_PONG" }
    else { "UNKNOWN" }
}

/// Which handler an inbound opcode goes to.
pub open spec fn dispatch_spec(op: u8) -> Seq<char> {
    if op == KADEMLIA_HELLO_REQ_DEPRECATED { "handle_kad1_hello_req"@ }
    else if op == KADEMLIA_SEARCH_REQ_DEPRECATED || op == KADEMLIA_SEARCH_RES_DEPRECATED
        || op == KADEMLIA_SEARCH_NOTES_REQ_DEPRECATED || op == KADEMLIA_PUBLISH_REQ_DEPRECATED
        || op == KADEMLIA_PUBLISH_RES_DEPRECATED || op == KADEMLIA_PUBLISH_NOTES_REQ_DEPRECATED {
        "drop_legacy_kad1_opcode"@
    }
    else if op == KADEMLIA2_BOOTSTRAP_REQ { "handle_bootstrap_req"@ }
    else if op == KADEMLIA2_BOOTSTRAP_RES { "handle_bootstrap_res"@ }
    else if op == KADEMLIA2_HELLO_REQ { "handle_hello_req"@ }
    else if op == KADEMLIA2_HELLO_RES { "handle_hello_res"@ }
    else if op == KADEMLIA2_HELLO_RES_ACK { "handle_hello_res_ack"@ }
    else if op == KADEMLIA_REQ_DEPRECATED || op == KADEMLIA2_REQ { "handle_req"@ }
    else if op == KADEMLIA_RES_DEPRECATED || op == KADEMLIA2_RES { "handle_res"@ }
    else if op == KADEMLIA2_PING { "handle_ping"@ }
    else if op == KADEMLIA2_PONG { "handle_pong"@ }
    else if op == KADEMLIA2_PUBLISH_KEY_REQ { "handle_publish_key_req"@ }
    else if op == KADEMLIA2_PUBLISH_SOURCE_REQ { "handle_publish_source_req"@ }
    else if op == KADEMLIA2_SEARCH_KEY_REQ { "handle_search_key_req"@ }
    else if op == KADEMLIA2_SEARCH_SOURCE_REQ { "handle_search_source_req"@ }
    else if op == KADEMLIA2_SEARCH_RES { "handle_search_res"@ }
    else if op == KADEMLIA2_PUBLISH_RES { "handle_publish_res"@ }
    else { "drop_unhandled_opcode"@ }
}

pub fn kad_dispatch_target(opcode: u8) -> (s: &'static str)
    ensures
        s@ == dispatch_spec(opcode),
{
    let op = opcode;
    if op == KADEMLIA_HELLO_REQ_DEPRECATED { "handle_kad1_hello_req" }
    else if op == KADEMLIA_SEARCH_REQ_DEPRECATED || op == KADEMLIA_SEARCH_RES_DEPRECATED
        || op == KADEMLIA_SEARCH_NOTES_REQ_DEPRECATED || op == KADEMLIA_PUBLISH_REQ_DEPRECATED
        || op == KADEMLIA_PUBLISH_RES_DEPRECATED || op == KADEMLIA_PUBLISH_NOTES_REQ_DEPRECATED {
        "drop_legacy_kad1_opcode"
    }
    else if op == KADEMLIA2_BOOTSTRAP_REQ { "handle_bootstrap_req" }
    else if op == KADEMLIA2_BOOTSTRAP_RES { "handle_bootstrap_res" }
    else if op == KADEMLIA2_HELLO_REQ { "handle_hello_req" }
    else if op == KADEMLIA2_HELLO_RES { "handle_hello_res" }
    else if op == KADEMLIA2_HELLO_RES_ACK { "handle_hello_res_ack" }
    else if op == KADEMLIA_REQ_DEPRECATED || op == KADEMLIA2_REQ { "handle_req" }
    else if op == KADEMLIA_RES_DEPRECATED || op == KADEMLIA2_RES { "handle_res" }
    else if op == KADEMLIA2_PING { "handle_ping" }
    else if op == KADEMLIA2_PONG { "handle_pong" }
    else if op == KADEMLIA2_PUBLISH_KEY_REQ { "handle_publish_key_req" }
    else if op == KADEMLIA2_PUBLISH_SOURCE_REQ { "handle_publish_source_req" }
    else if op == KADEMLIA2_SEARCH_KEY_REQ { "handle_search_key_req" }
    else if op == KADEMLIA2_SEARCH_SOURCE_REQ { "handle_search_source_req" }
    else if op == KADEMLIA2_SEARCH_RES { "handle_search_res" }
    else if op == KADEMLIA2_PUBLISH_RES { "handle_publish_res" }
    else { "drop_unhandled_opcode" }
}

/// Traffic classes of the outbound shaper.
#[derive(Debug, Clone, Copy, PartialEq, Eq, Hash, Structural)]
pub enum OutboundClass {
    Query,
    Hello,
    Bootstrap,
    Response,
}

pub fn outbound_class_for_opcode(opcode: u8) -> (c: OutboundClass)
    ensures
        c == (if opcode == KADEMLIA2_HELLO_REQ || opcode == KADEMLIA_HELLO_REQ_DEPRECATED {
            OutboundClass::Hello
        } else if opcode == KADEMLIA2_BOOTSTRAP_REQ {
            OutboundClass::Bootstrap
        } else {
            OutboundClass::Query
        }),
{
    if opcode == KADEMLIA2_HELLO_REQ || opcode == KADEMLIA_HELLO_REQ_DEPRECATED {
        OutboundClass::Hello
    } else if opcode == KADEMLIA2_BOOTSTRAP_REQ {
        OutboundClass::Bootstrap
    } else {
        OutboundClass::Query
    }
}

pub open spec fn class_letter(c: OutboundClass) -> char {
    match c {
        OutboundClass::Query => 'q',
        OutboundClass::Hello => 'h',
        OutboundClass::Bootstrap => 'b',
        OutboundClass::Response => 'r',
    }
}

/// The shaper's per-peer key: class letter, `:`, destination.
pub fn shaper_peer_key(class: OutboundClass, dest_b64: &str) -> (s: String)
    ensures
        s@ == seq![class_letter(class), ':'] + dest_b64@,
{
    let prefix: Vec<char> = match class {
        OutboundClass::Query => vec!['q', ':'],
        OutboundClass::Hello => vec!['h', ':'],
        OutboundClass::Bootstrap => vec!['b', ':'],
        OutboundClass::Response => vec!['r', ':'],
    };
    assert(prefix@ =~= seq![class_letter(class), ':']);
    let mut s = chars_to_string(&prefix);
    s.append(dest_b64);
    s
}

/// Whether a node is due a HELLO: it asks for one, was never greeted, or
/// was greeted at least `min_interval` ago (times in nanoseconds).
pub fn should_send_hello(needs_hello: bool, last_hello: Option<u64>, now: u64, min_interval: u64) -> (r: bool)
    ensures
        r == (needs_hello || match last_hello {
            Some(t) => (if now >= t { now - t } else { 0 }) >= min_interval,
            None => true,
        }),
{
    if needs_hello {
        return true;
    }
    match last_hello {
        Some(t) => now.saturating_sub(t) >= min_interval,
        None => true,
    }
}

/// Whole seconds from `t` to `now` (zero when `t` is later).
pub fn age_secs(now: u64, t: Option<u64>) -> (r: Option<u64>)
    ensures
        r == match t {
            Some(ts) => Some(((if now >= ts { now - ts } else { 0 }) / 1_000_000_000) as u64),
            None => None::<u64>,
        },
{
    match t {
        Some(ts) => Some(now.saturating_sub(ts) / 1_000_000_000),
        None => None,
    }
}

/// Two hex digits per byte, space separated.
pub open spec fn hex_spaced(b: Seq<u8>) -> Seq<char>
    decreases b.len(),
{
    if b.len() == 0 {
        Seq::empty()
    } else if b.len() == 1 {
        seq![hex_digit(b[0] as int / 16), hex_digit(b[0] as int % 16)]
    } else {
        hex_spaced(b.drop_last()) + seq![' ', hex_digit(b.last() as int / 16), hex_digit(b.last() as int % 16)]
    }
}

/// The first `max` bytes in hex, space separated.
pub fn hex_head(b: &[u8], max: usize) -> (s: String)
    ensures
        s@ == hex_spaced(b@.take(if max < b@.len() { max as int } else { b@.len() as int })),
{
    let n: usize = if max < b.len() { max } else { b.len() };
    let mut out: Vec<char> = Vec::new();
    let mut i: usize = 0;
    while i < n
        invariant
            i <= n,
            n <= b@.len(),
            out@ == hex_spaced(b@.take(i as int)),
        decreases n - i,
    {
        proof {
            assert(b@.take(i + 1).drop_last() =~= b@.take(i as int));
        }
        if i > 0 {
            out.push(' ');
        }
        out.push(hex_digit_exec(b[i] / 16));
        out.push(hex_digit_exec(b[i] % 16));
        i += 1;
        proof {
            if i == 1 {
                assert(out@ =~= hex_spaced(b@.take(1)));
            } else {
                assert(out@ =~= hex_spaced(b@.take(i as int)));
            }
        }
    }
    chars_to_string(&out)
}

/// Whether a peer greeted by a plain HELLO_REQ also gets an obfuscated one:
/// only when configured, and only to a Kad 6 (or later) peer that gave us a
/// receiver key bound to our own destination.
pub fn wants_dual_obfuscated_hello(cfg: &KadServiceConfig, peer: &ImuleNode, my_dest_hash: u32) -> (r: bool)
    ensures
        r == (cfg.hello_dual_obfuscated && peer.kad_version >= 6 && peer.udp_key_ip == my_dest_hash
            && peer.udp_key != 0),
{
    cfg.hello_dual_obfuscated && peer.kad_version >= 6 && peer.udp_key_ip == my_dest_hash && peer.udp_key != 0
}

/// What a debug probe sends to one peer besides its plain HELLO_REQ,
/// SEARCH_KEY_REQ and PUBLISH_KEY_REQ.
#[derive(Debug, Clone, Copy)]
pub struct DebugProbePlan {
    /// A second, obfuscated HELLO_REQ.
    pub dual_hello: bool,
    /// A SEARCH_SOURCE_REQ (Kad 3 and later).
    pub search_source: bool,
    /// A PUBLISH_SOURCE_REQ (Kad 4 and later).
    pub publish_source: bool,
}

/// The requests a debug probe sends to `peer`.
pub fn debug_probe_plan(cfg: &KadServiceConfig, peer: &ImuleNode, my_dest_hash: u32) -> (p: DebugProbePlan)
    ensures
        p.dual_hello == (cfg.hello_dual_obfuscated && peer.kad_version >= 6 && peer.udp_key_ip == my_dest_hash
            && peer.udp_key != 0),
        p.search_source == (peer.kad_version >= 3),
        p.publish_source == (peer.kad_version >= 4),
{
    DebugProbePlan {
        dual_hello: wants_dual_obfuscated_hello(cfg, peer, my_dest_hash),
        search_source: peer.kad_version >= 3,
        publish_source: peer.kad_version >= 4,
    }
}

} // verus!
