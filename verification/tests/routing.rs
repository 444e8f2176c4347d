use rust_mule::i2p::b64::encode;
use rust_mule::kad::routing::{
    backoff_interval, bootstrap_backoff_interval, bucket_index, classify_peer_health, PeerHealthClass,
    RoutingTable, UpsertOutcome,
};
use rust_mule::kad::KadId;
use rust_mule::nodes::imule::ImuleNode;

const SEC: u64 = 1_000_000_000;
const NOW: u64 = 100_000 * SEC;

fn node(id: u8, dest: u8, verified: bool) -> ImuleNode {
    ImuleNode {
        kad_version: 6,
        client_id: [id; 16],
        udp_dest: [dest; 387],
        udp_key: 0,
        udp_key_ip: 0,
        verified,
    }
}

#[test]
fn bucket_index_uses_msb_distance() {
    let my = KadId([0u8; 16]);
    let mut far = [0u8; 16];
    far[0] = 0x80; // MSB set
    let mut near = [0u8; 16];
    near[15] = 0x01; // LSB set

    assert_eq!(bucket_index(my, KadId(far)), Some(0));
    assert_eq!(bucket_index(my, KadId(near)), Some(127));
}

#[test]
fn peer_health_counts_reflect_unknown_verified_stable_unreliable() {
    let my = KadId([0u8; 16]);
    let now = NOW;
    let mut rt = RoutingTable::new(my);

    let n1 = ImuleNode {
        kad_version: 6,
        client_id: [1u8; 16],
        udp_dest: [1u8; 387],
        udp_key: 0,
        udp_key_ip: 0,
        verified: false,
    };
    let n2 = ImuleNode {
        kad_version: 6,
        client_id: [2u8; 16],
        udp_dest: [2u8; 387],
        udp_key: 0,
        udp_key_ip: 0,
        verified: true,
    };
    let n3 = ImuleNode {
        kad_version: 6,
        client_id: [3u8; 16],
        udp_dest: [3u8; 387],
        udp_key: 0,
        udp_key_ip: 0,
        verified: true,
    };
    let n4 = ImuleNode {
        kad_version: 6,
        client_id: [4u8; 16],
        udp_dest: [4u8; 387],
        udp_key: 0,
        udp_key_ip: 0,
        verified: true,
    };

    let _ = rt.upsert(n1, now);
    let _ = rt.upsert(n2, now);
    let _ = rt.upsert(n3, now);
    let _ = rt.upsert(n4, now);

    let d2 = [2u8; 387];
    let d3 = [3u8; 387];
    let d4 = [4u8; 387];
    let d2_b64 = encode(&d2);
    let d3_b64 = encode(&d3);
    let d4_b64 = encode(&d4);

    rt.mark_seen_by_dest(&d3_b64, now); // stable candidate: verified + recent inbound + 0 failures
    rt.mark_seen_by_dest(&d4_b64, now); // unreliable candidate; then add failures
    rt.mark_failure_by_dest(&d4_b64);
    rt.mark_failure_by_dest(&d4_b64);
    rt.mark_failure_by_dest(&d4_b64);

    // verified-only candidate: older inbound
    rt.mark_seen_by_dest(&d2_b64, now - 20 * 60 * SEC);

    let counts = rt.peer_health_counts(now);
    assert_eq!(counts.unknown, 1);
    assert_eq!(counts.verified, 1);
    assert_eq!(counts.stable, 1);
    assert_eq!(counts.unreliable, 1);
}

#[test]
fn query_candidates_for_target_prefer_stable_over_unreliable() {
    let my = KadId([0u8; 16]);
    let now = NOW;
    let mut rt = RoutingTable::new(my);

    let n1 = node(1, 1, true);
    let n2 = node(2, 2, true);
    let _ = rt.upsert(n1, now);
    let _ = rt.upsert(n2, now);

    let d1_b64 = rt
        .get_by_id(KadId([1u8; 16]))
        .expect("node 1 present")
        .dest_b64
        .clone();
    let d2_b64 = rt
        .get_by_id(KadId([2u8; 16]))
        .expect("node 2 present")
        .dest_b64
        .clone();

    // Mark both as live, then make node1 unreliable.
    rt.mark_seen_by_dest(&d1_b64, now);
    rt.mark_seen_by_dest(&d2_b64, now);
    rt.mark_failure_by_dest(&d1_b64);
    rt.mark_failure_by_dest(&d1_b64);
    rt.mark_failure_by_dest(&d1_b64);

    let target = KadId([0u8; 16]);
    let out = rt.select_query_candidates_for_target(target, 2, now, SEC, 5);
    let ids: Vec<u8> = out.iter().map(|n| n.client_id[0]).collect();
    assert_eq!(ids, vec![2, 1]);
}

#[test]
fn upsert_ignores_zero_and_self() {
    let my = KadId([9u8; 16]);
    let mut rt = RoutingTable::new(my);
    assert_eq!(rt.upsert(node(0, 1, false), NOW), UpsertOutcome::IgnoredZeroId);
    assert_eq!(rt.upsert(node(9, 1, false), NOW), UpsertOutcome::IgnoredSelf);
    assert!(rt.is_empty());
    assert_eq!(rt.upsert(node(3, 3, false), NOW), UpsertOutcome::Inserted);
    assert_eq!(rt.upsert(node(3, 3, true), NOW + SEC), UpsertOutcome::Updated);
    assert_eq!(rt.len(), 1);
    assert!(rt.get_by_id(KadId([3u8; 16])).unwrap().node.verified);
    assert_eq!(rt.id_for_dest(&encode(&[3u8; 387])), Some(KadId([3u8; 16])));
}

#[test]
fn closest_to_orders_by_xor_distance_and_excludes() {
    let mut rt = RoutingTable::new(KadId([0xffu8; 16]));
    for b in [0x10u8, 0x01, 0x80, 0x40] {
        let _ = rt.upsert(node(b, b, false), NOW);
    }
    let out = rt.closest_to(KadId([0u8; 16]), 3, 0);
    let ids: Vec<u8> = out.iter().map(|n| n.client_id[0]).collect();
    assert_eq!(ids, vec![0x01, 0x10, 0x40]);

    let excluded = node(0x01, 0x01, false).udp_dest_hash_code();
    let out = rt.closest_to(KadId([0u8; 16]), 10, excluded);
    let ids: Vec<u8> = out.iter().map(|n| n.client_id[0]).collect();
    assert_eq!(ids, vec![0x10, 0x40, 0x80]);
}

#[test]
fn prefer_live_puts_recent_peers_first_unless_distance_first() {
    let mut rt = RoutingTable::new(KadId([0xffu8; 16]));
    let _ = rt.upsert(node(0x01, 1, false), NOW);
    let _ = rt.upsert(node(0x80, 2, false), NOW);
    rt.mark_seen_by_dest(&encode(&[2u8; 387]), NOW);
    let target = KadId([0u8; 16]);
    let live = rt.closest_to_prefer_live(target, 2, 0, NOW, 60 * SEC, 0);
    assert_eq!(live.iter().map(|n| n.client_id[0]).collect::<Vec<_>>(), vec![0x80, 0x01]);
    let dist = rt.closest_to_distance_first_prefer_live(target, 2, 0, NOW, 60 * SEC, 0);
    assert_eq!(dist.iter().map(|n| n.client_id[0]).collect::<Vec<_>>(), vec![0x01, 0x80]);
    let none = rt.closest_to_prefer_live(target, 2, 0, NOW, 60 * SEC, 7);
    assert!(none.is_empty());
}

#[test]
fn snapshot_prefers_verified_nodes() {
    let mut rt = RoutingTable::new(KadId([0xffu8; 16]));
    let _ = rt.upsert(node(1, 1, false), NOW);
    let _ = rt.upsert(node(2, 2, true), NOW);
    let _ = rt.upsert(node(3, 3, false), NOW + SEC);
    let out = rt.snapshot_nodes(10);
    assert_eq!(out.iter().map(|n| n.client_id[0]).collect::<Vec<_>>(), vec![2, 3, 1]);
    assert_eq!(rt.snapshot_nodes(1).len(), 1);
    let states = rt.snapshot_states();
    assert_eq!(states.iter().map(|s| s.node.client_id[0]).collect::<Vec<_>>(), vec![1, 2, 3]);
}

#[test]
fn hello_and_bootstrap_candidates_follow_backoff() {
    let mut rt = RoutingTable::new(KadId([0xffu8; 16]));
    let _ = rt.upsert(node(1, 1, false), NOW);
    let _ = rt.upsert(node(2, 2, false), NOW);
    let d1 = encode(&[1u8; 387]);
    rt.mark_hello_sent_by_dest(&d1, NOW);
    let out = rt.select_hello_candidates(10, NOW + SEC, 10 * SEC, 3);
    assert_eq!(out.iter().map(|n| n.client_id[0]).collect::<Vec<_>>(), vec![2]);
    let out = rt.select_hello_candidates(10, NOW + 20 * SEC, 10 * SEC, 3);
    assert_eq!(out.iter().map(|n| n.client_id[0]).collect::<Vec<_>>(), vec![2, 1]);

    rt.mark_bootstrap_sent_by_dest(&d1, NOW);
    let out = rt.select_bootstrap_candidates(10, NOW + SEC, 10 * SEC, 60 * SEC);
    assert_eq!(out.iter().map(|n| n.client_id[0]).collect::<Vec<_>>(), vec![2]);
}

#[test]
fn query_candidates_skip_failed_and_backed_off() {
    let mut rt = RoutingTable::new(KadId([0xffu8; 16]));
    let _ = rt.upsert(node(1, 1, true), NOW);
    let _ = rt.upsert(node(2, 2, true), NOW);
    let d1 = encode(&[1u8; 387]);
    let d2 = encode(&[2u8; 387]);
    rt.mark_queried_by_dest(&d1, NOW);
    rt.mark_failure_by_dest(&d2);
    rt.mark_failure_by_dest(&d2);
    let out = rt.select_query_candidates(10, NOW + SEC, 10 * SEC, 2);
    assert!(out.is_empty());
    let out = rt.select_query_candidates(10, NOW + 11 * SEC, 10 * SEC, 2);
    assert_eq!(out.iter().map(|n| n.client_id[0]).collect::<Vec<_>>(), vec![1]);
}

#[test]
fn evict_removes_failed_stale_nodes_and_their_destinations() {
    let mut rt = RoutingTable::new(KadId([0xffu8; 16]));
    let _ = rt.upsert(node(1, 1, false), NOW);
    let _ = rt.upsert(node(2, 2, false), NOW);
    let d1 = encode(&[1u8; 387]);
    rt.mark_failure_by_dest(&d1);
    rt.mark_failure_by_dest(&d1);
    assert_eq!(rt.evict(NOW + 5 * SEC, 2, 10 * SEC), 0);
    assert_eq!(rt.evict(NOW + 10 * SEC, 2, 10 * SEC), 1);
    assert_eq!(rt.len(), 1);
    assert!(!rt.contains_id(KadId([1u8; 16])));
    assert_eq!(rt.id_for_dest(&d1), None);
    assert!(rt.contains_id(KadId([2u8; 16])));
}

#[test]
fn backoff_doubles_and_caps() {
    assert_eq!(backoff_interval(SEC, 0), SEC);
    assert_eq!(backoff_interval(SEC, 3), 8 * SEC);
    assert_eq!(backoff_interval(SEC, 20), 256 * SEC);
    assert_eq!(backoff_interval(u64::MAX, 1), 86_400 * SEC);
    assert_eq!(bootstrap_backoff_interval(SEC, 5), 4 * SEC);
}

#[test]
fn health_class_and_buckets() {
    let mut rt = RoutingTable::new(KadId([0u8; 16]));
    let _ = rt.upsert(node(0x40, 1, true), NOW);
    let st = rt.get_by_id(KadId([0x40u8; 16])).unwrap();
    assert_eq!(classify_peer_health(st, NOW), PeerHealthClass::Verified);
    assert_eq!(rt.bucket_last_activity(1), Some(NOW));
    assert_eq!(rt.bucket_last_activity(0), None);
    rt.mark_bucket_refreshed(5, NOW);
    assert_eq!(rt.bucket_last_refresh(5), Some(NOW));
    assert_eq!(rt.bucket_last_refresh(500), None);
    assert_eq!(rt.peer_health_class_by_dest(&encode(&[1u8; 387]), NOW), Some(PeerHealthClass::Verified));
}
