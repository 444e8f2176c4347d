use rust_mule::kad::service::policy::{
    age_secs, canonical_request_opcode, hex_head, inbound_request_limit_per_minute,
    kad_dispatch_target, kad_opcode_name, outbound_class_for_opcode,
    response_expected_request_opcodes, shaper_peer_key, should_send_hello, OutboundClass,
};
use rust_mule::kad::service::requests::{InboundLimiter, OutRequestTracker};
use rust_mule::kad::service::{KadKeywordHitOrigin, KadServiceConfig};

const SEC: u64 = 1_000_000_000;

#[test]
fn opcode_tables() {
    assert_eq!(canonical_request_opcode(0x03), Some(0x0F));
    assert_eq!(canonical_request_opcode(0x05), Some(0x11));
    assert_eq!(canonical_request_opcode(0x13), None);
    assert_eq!(response_expected_request_opcodes(0x1B, 17), Some(vec![0x18]));
    assert_eq!(response_expected_request_opcodes(0x1B, 20), Some(vec![0x19, 0x18]));
    assert_eq!(response_expected_request_opcodes(0x17, 0), Some(vec![0x14, 0x15]));
    assert_eq!(response_expected_request_opcodes(0x11, 0), None);
    assert_eq!(inbound_request_limit_per_minute(0x0D), Some((0x0D, 2)));
    assert_eq!(inbound_request_limit_per_minute(0x03), Some((0x0F, 3)));
    assert_eq!(inbound_request_limit_per_minute(0x15), Some((0x15, 30)));
    assert_eq!(inbound_request_limit_per_minute(0x10), None);
    assert_eq!(inbound_request_limit_per_minute(0x1F), None);
    assert_eq!(kad_opcode_name(0x1E), "KADEMLIA2_PING");
    assert_eq!(kad_opcode_name(0xEE), "UNKNOWN");
    assert_eq!(kad_dispatch_target(0x07), "drop_legacy_kad1_opcode");
    assert_eq!(kad_dispatch_target(0x05), "handle_req");
    assert_eq!(kad_dispatch_target(0x99), "drop_unhandled_opcode");
    assert_eq!(outbound_class_for_opcode(0x0F), OutboundClass::Hello);
    assert_eq!(outbound_class_for_opcode(0x0D), OutboundClass::Bootstrap);
    assert_eq!(outbound_class_for_opcode(0x11), OutboundClass::Query);
    assert_eq!(shaper_peer_key(OutboundClass::Response, "abc"), "r:abc");
}

#[test]
fn small_rules() {
    assert!(should_send_hello(true, Some(10), 10, 100));
    assert!(should_send_hello(false, None, 10, 100));
    assert!(!should_send_hello(false, Some(10), 50, 100));
    assert!(should_send_hello(false, Some(10), 110, 100));
    assert_eq!(age_secs(5 * SEC, Some(2 * SEC)), Some(3));
    assert_eq!(age_secs(2 * SEC, Some(5 * SEC)), Some(0));
    assert_eq!(age_secs(2 * SEC, None), None);
    assert_eq!(hex_head(&[0x01, 0xab, 0xff], 2), "01 ab");
    assert_eq!(hex_head(&[0x01], 8), "01");
    assert_eq!(hex_head(&[], 8), "");
    assert_eq!(KadKeywordHitOrigin::Local.as_str(), "local");
    assert_eq!(KadKeywordHitOrigin::Network.as_str(), "network");
    let cfg = KadServiceConfig::default();
    assert_eq!(cfg.req_contacts, 31);
    assert_eq!(cfg.bootstrap_every_secs, 1800);
    assert_eq!(cfg.store_keyword_evict_age_secs, 14 * 24 * 3600);
}

#[test]
fn tracked_out_requests_expire_and_describe_refusals() {
    let mut t = OutRequestTracker::new();
    assert_eq!(t.track("peer", 0x10, 0, None), Some(0));
    assert_eq!(t.track("peer", 0x13, 0, None), None);
    // an unrequested PONG is refused and described
    assert!(!t.consume("peer", 0x1F, 0, SEC));
    let d = t.last_unmatched().as_ref().unwrap();
    assert_eq!(d.expected_request_opcodes, vec![0x1E]);
    assert_eq!(d.peer_tracked_requests, 1);
    // the HELLO_RES_ACK answers the HELLO_RES sent earlier, once
    assert!(t.consume("peer", 0x12, 0, SEC));
    assert!(t.last_unmatched().is_none());
    assert!(!t.consume("peer", 0x12, 0, SEC));
    // untracked opcodes pass
    assert!(t.consume("other", 0x11, 0, SEC));
    // requests expire after 180 s
    assert_eq!(t.track("peer", 0x1E, 2 * SEC, Some("probe")), Some(1));
    assert!(!t.consume("peer", 0x1F, 0, 183 * SEC));
    assert_eq!(t.stats(), (1, 1, 3));
}

#[test]
fn inbound_limits_per_sender_and_kind() {
    let mut l = InboundLimiter::new(0);
    // HELLO_REQ: three per minute per sender
    assert!(l.allowed(7, 0x0F, SEC));
    assert!(l.allowed(7, 0x03, 2 * SEC));
    assert!(l.allowed(7, 0x0F, 3 * SEC));
    assert!(!l.allowed(7, 0x0F, 4 * SEC));
    assert!(l.allowed(8, 0x0F, 4 * SEC));
    // responses are never limited
    assert!(l.allowed(7, 0x10, 4 * SEC));
    // a new minute starts afresh
    assert!(l.allowed(7, 0x0F, 62 * SEC));
}

#[test]
fn tracked_out_request_requires_matching_response() {
    let mut t = OutRequestTracker::new();
    let now = 1_000 * SEC;
    let dest = "peer-a";

    t.track(dest, 0x14, now, None);
    assert!(t.consume(dest, 0x17, 0, now));
    assert!(!t.consume(dest, 0x17, 0, now));

    t.track(dest, 0x19, now, None);
    assert!(!t.consume(dest, 0x10, 0, now));
}

#[test]
fn inbound_request_limit_drops_flood_after_threshold() {
    let now = 1_000 * SEC;
    let mut l = InboundLimiter::new(now);
    let from_hash = 42u32;
    for _ in 0..30 {
        assert!(l.allowed(from_hash, 0x11, now));
    }
    assert!(!l.allowed(from_hash, 0x11, now));
    assert!(l.allowed(from_hash, 0x11, now + 61 * SEC));
}
