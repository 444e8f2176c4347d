use rust_mule::i2p::b64::encode;
use rust_mule::kad::routing::RoutingTable;
use rust_mule::kad::service::routing_view::{build_routing_buckets, build_routing_summary};
use rust_mule::kad::KadId;
use rust_mule::nodes::imule::ImuleNode;

const SEC: u64 = 1_000_000_000;
const NOW: u64 = 50_000 * SEC;

fn node(id: u8, verified: bool) -> ImuleNode {
    ImuleNode { kad_version: 8, client_id: [id; 16], udp_dest: [id; 387], udp_key: 0, udp_key_ip: 0, verified }
}

fn table() -> RoutingTable {
    let mut rt = RoutingTable::new(KadId([0u8; 16]));
    let _ = rt.upsert(node(0x80, true), NOW - 5 * SEC);
    let _ = rt.upsert(node(0x40, false), NOW - 2 * SEC);
    let _ = rt.upsert(node(0x41, false), NOW);
    rt.mark_seen_by_dest(&encode(&[0x41u8; 387]), NOW - 3 * SEC);
    rt
}

#[test]
fn summary_counts_nodes_buckets_and_ages() {
    let rt = table();
    let s = build_routing_summary(&rt, NOW);
    assert_eq!(s.bucket_count, 128);
    assert_eq!(s.total_nodes, 3);
    assert_eq!(s.verified_nodes, 1);
    assert_eq!(s.unverified_nodes, 2);
    assert_eq!(s.buckets_empty, 126);
    assert_eq!(s.bucket_fill_min, 0);
    assert_eq!(s.bucket_fill_median, 0);
    assert_eq!(s.bucket_fill_max, 2);
    assert_eq!(s.last_seen_min_secs, Some(2));
    assert_eq!(s.last_seen_max_secs, Some(5));
    assert_eq!(s.last_inbound_min_secs, Some(3));
    assert_eq!(s.last_inbound_max_secs, Some(3));
}

#[test]
fn buckets_report_their_own_nodes() {
    let rt = table();
    let b = build_routing_buckets(&rt, NOW);
    assert_eq!(b.len(), 128);
    assert_eq!(b[0].count, 1);
    assert_eq!(b[0].verified, 1);
    assert_eq!(b[0].last_seen_max_secs, Some(5));
    assert_eq!(b[1].count, 2);
    assert_eq!(b[1].unverified, 2);
    assert_eq!(b[1].last_inbound_min_secs, Some(3));
    assert_eq!(b[1].index, 1);
    assert_eq!(b[2].count, 0);
    assert_eq!(b[2].last_seen_min_secs, None);
    assert_eq!(b[0].last_activity_secs_ago, Some(5));
    assert_eq!(b[1].last_activity_secs_ago, Some(3));
    assert_eq!(b[5].last_refresh_secs_ago, None);
}

#[test]
fn empty_table_has_no_ages() {
    let rt = RoutingTable::new(KadId([0u8; 16]));
    let s = build_routing_summary(&rt, NOW);
    assert_eq!(s.total_nodes, 0);
    assert_eq!(s.buckets_empty, 128);
    assert_eq!(s.last_seen_min_secs, None);
}
