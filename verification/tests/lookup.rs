use rust_mule::kad::routing::{bucket_index, RoutingTable};
use rust_mule::kad::service::lookup::{
    closest_peers_by_distance, closest_peers_with_fallback, id_in_bucket, lookup_alpha, random_id_in_bucket, requested_contacts,
    stale_buckets, LookupKind, LookupTask, Lookups,
};
use rust_mule::kad::service::KadServiceConfig;
use rust_mule::kad::KadId;
use rust_mule::nodes::imule::ImuleNode;

const SEC: u64 = 1_000_000_000;
const NOW: u64 = 100_000 * SEC;

fn node(id: u8, dest: u8, version: u8) -> ImuleNode {
    ImuleNode {
        kad_version: version,
        client_id: [id; 16],
        udp_dest: [dest; 387],
        udp_key: 0,
        udp_key_ip: 0,
        verified: true,
    }
}

#[test]
fn id_in_bucket_sets_the_bucket_bit_and_keeps_the_prefix() {
    let my = KadId([0u8; 16]);
    let rand = [0xffu8; 16];
    let t = id_in_bucket(my, 0, &rand);
    assert_eq!(t.0, [0xff; 16]);

    let zero = [0u8; 16];
    let t = id_in_bucket(my, 9, &zero);
    let mut want = [0u8; 16];
    want[1] = 0x40;
    assert_eq!(t.0, want);

    let t = id_in_bucket(my, 9, &rand);
    let mut want = [0xffu8; 16];
    want[0] = 0;
    want[1] = 0x7f;
    assert_eq!(t.0, want);

    let me = KadId([0x0f; 16]);
    let t = id_in_bucket(me, 127, &zero);
    let mut want = [0x0fu8; 16];
    want[15] = 0x0e;
    assert_eq!(t.0, want);
}

#[test]
fn id_in_bucket_past_the_last_bit_is_ourselves() {
    let me = KadId([0x33; 16]);
    assert_eq!(id_in_bucket(me, 128, &[0xaa; 16]).0, me.0);
}

#[test]
fn random_targets_land_in_their_bucket() {
    let me = KadId([0x5a; 16]);
    for b in [0usize, 1, 7, 8, 63, 100, 127] {
        let t = random_id_in_bucket(me, b);
        if t.0 != [0u8; 16] {
            assert_eq!(bucket_index(me, t), Some(b));
        }
    }
}

#[test]
fn alpha_and_contact_count() {
    let mut t = LookupTask::new(LookupKind::Debug, KadId([1; 16]), None, NOW);
    assert_eq!(lookup_alpha(&t, 3), 3);
    assert_eq!(lookup_alpha(&t, 0), 1);
    t.alpha_override = Some(5);
    assert_eq!(lookup_alpha(&t, 3), 5);
    assert_eq!(requested_contacts(0), 1);
    assert_eq!(requested_contacts(11), 11);
    assert_eq!(requested_contacts(200), 31);
}

#[test]
fn queries_are_recorded_once_and_answers_clear_inflight() {
    let mut t = LookupTask::new(LookupKind::Debug, KadId([0; 16]), None, NOW);
    let p = node(9, 1, 6);
    assert!(t.wants_query("dest-a"));
    t.record_query("dest-a", &p);
    assert!(!t.wants_query("dest-a"));
    assert!(t.wants_query("dest-b"));
    t.record_query("dest-b", &p);
    assert_eq!(t.known.len(), 1);
    assert_eq!(t.inflight.len(), 2);

    let mut table = RoutingTable::new(KadId([0xee; 16]));
    table.upsert(node(3, 3, 6), NOW);
    let contacts = [KadId([3; 16]), KadId([9; 16]), KadId([4; 16])];
    t.on_response(&table, NOW + 5 * SEC, "dest-a", &contacts, 2);
    assert_eq!(t.inflight, vec!["dest-b".to_string()]);
    assert_eq!(t.queried.len(), 2);
    assert_eq!(t.new_nodes, 2);
    assert_eq!(t.last_progress, NOW + 5 * SEC);
    assert_eq!(t.known.len(), 2);
    assert_eq!(t.known[1].client_id, [3; 16]);

    t.on_response(&table, NOW + 9 * SEC, "dest-b", &[], 0);
    assert!(t.inflight.is_empty());
    assert_eq!(t.last_progress, NOW + 5 * SEC);
}

#[test]
fn closest_summary_reports_the_nearest_distance() {
    let mut t = LookupTask::new(LookupKind::Debug, KadId([0; 16]), None, NOW);
    let (s, n) = t.closest_summary();
    assert_eq!(s, "none");
    assert_eq!(n, 0);
    t.seed_known(vec![node(0x30, 1, 6), node(0x02, 2, 6), node(0x30, 3, 6), node(0x10, 4, 6)]);
    let (s, n) = t.closest_summary();
    assert_eq!(n, 3);
    assert_eq!(s, "02".repeat(16));
}

#[test]
fn rounds_end_after_eight_or_when_idle_or_stalled() {
    let mut t = LookupTask::new(LookupKind::Debug, KadId([0; 16]), None, NOW);
    assert!(t.finish_round(0, NOW, 30));
    assert_eq!(t.iteration, 0);

    let mut t = LookupTask::new(LookupKind::Debug, KadId([0; 16]), None, NOW);
    t.record_query("d", &node(1, 1, 6));
    for _ in 0..7 {
        assert!(!t.finish_round(1, NOW, 30));
    }
    assert!(t.finish_round(1, NOW, 30));
    assert_eq!(t.iteration, 8);

    let mut t = LookupTask::new(LookupKind::Debug, KadId([0; 16]), None, NOW);
    t.record_query("d", &node(1, 1, 6));
    assert!(!t.finish_round(0, NOW + 30 * SEC, 30));
    assert!(t.finish_round(0, NOW + 31 * SEC, 30));
}

#[test]
fn closest_peers_drop_old_versions_and_cap() {
    let mut table = RoutingTable::new(KadId([0xff; 16]));
    table.upsert(node(1, 1, 1), NOW);
    table.upsert(node(2, 2, 6), NOW);
    table.upsert(node(3, 3, 6), NOW);
    table.upsert(node(4, 4, 6), NOW);
    let target = KadId([0; 16]);
    let out = closest_peers_by_distance(&table, target, 2, 2, 0);
    let ids: Vec<u8> = out.iter().map(|n| n.client_id[0]).collect();
    assert_eq!(ids, vec![2, 3]);
}

#[test]
fn lookups_run_in_queue_order_and_ignore_other_targets() {
    let mut l = Lookups::new(NOW);
    l.start_lookup(KadId([1; 16]), LookupKind::Debug, None, NOW);
    l.start_lookup(KadId([2; 16]), LookupKind::Refresh { bucket: 4 }, Some(2), NOW);
    l.activate_next();
    assert_eq!(l.active.as_ref().map(|t| t.target), Some(KadId([1; 16])));
    assert_eq!(l.queue.len(), 1);
    l.activate_next();
    assert_eq!(l.queue.len(), 1);

    let table = RoutingTable::new(KadId([0xee; 16]));
    l.active.as_mut().unwrap().record_query("x", &node(5, 5, 6));
    l.handle_lookup_response(&table, NOW + SEC, KadId([2; 16]), "x", &[], 3);
    assert_eq!(l.active.as_ref().unwrap().inflight.len(), 1);
    l.handle_lookup_response(&table, NOW + SEC, KadId([1; 16]), "x", &[], 3);
    assert_eq!(l.active.as_ref().unwrap().inflight.len(), 0);
    assert_eq!(l.active.as_ref().unwrap().new_nodes, 3);
}

#[test]
fn prepare_round_seeds_an_empty_lookup() {
    let mut table = RoutingTable::new(KadId([0xff; 16]));
    table.upsert(node(2, 2, 6), NOW);
    table.upsert(node(3, 3, 1), NOW);
    let mut l = Lookups::new(NOW);
    assert!(l.prepare_round(&table).is_none());
    l.start_lookup(KadId([0; 16]), LookupKind::Debug, None, NOW);
    let c = l.prepare_round(&table).unwrap();
    assert_eq!(c.len(), 1);
    assert_eq!(l.active.as_ref().unwrap().known.len(), 1);
}

#[test]
fn stale_buckets_idle_first_then_by_number() {
    let mut table = RoutingTable::new(KadId([0; 16]));
    let cfg = KadServiceConfig::default();
    let all = stale_buckets(&table, NOW, cfg.refresh_interval_secs);
    assert_eq!(all.len(), 128);
    assert_eq!(all[0], (0, u64::MAX / 2));
    assert_eq!(all[127].0, 127);
    table.mark_bucket_refreshed(0, NOW);
    let rest = stale_buckets(&table, NOW + 60 * SEC, cfg.refresh_interval_secs);
    assert_eq!(rest.len(), 127);
    assert_eq!(rest[0].0, 1);
}

#[test]
fn tick_refresh_refreshes_underpopulated_then_periodic() {
    let mut table = RoutingTable::new(KadId([0x11; 16]));
    let cfg = KadServiceConfig::default();
    let mut l = Lookups::new(NOW);
    let now = NOW + 61 * SEC;
    l.tick_refresh(&mut table, &cfg, now);
    // two underpopulated refreshes (buckets 0 and 1), then one periodic (bucket 0 again)
    assert_eq!(l.queue.len(), 3);
    assert_eq!(l.queue[0].kind, LookupKind::Refresh { bucket: 0 });
    assert_eq!(l.queue[0].alpha_override, Some(5));
    assert_eq!(l.queue[1].kind, LookupKind::Refresh { bucket: 1 });
    assert_eq!(l.queue[2].kind, LookupKind::Refresh { bucket: 0 });
    assert_eq!(l.queue[2].alpha_override, None);
    assert_eq!(l.last_underpopulated_refresh, now);
    assert_eq!(l.last_refresh_tick, now);
    assert_eq!(table.bucket_last_refresh(0), Some(now));
    assert_eq!(table.bucket_last_refresh(1), Some(now));
    assert_eq!(table.bucket_last_refresh(2), None);
    for t in &l.queue {
        if let LookupKind::Refresh { bucket } = t.kind {
            if t.target.0 != [0u8; 16] {
                assert_eq!(bucket_index(KadId([0x11; 16]), t.target), Some(bucket));
            }
        }
    }

    // within the same second nothing more happens
    l.tick_refresh(&mut table, &cfg, now);
    assert_eq!(l.queue.len(), 3);
}

fn make_node(id_byte: u8, kad_version: u8) -> ImuleNode {
    let mut client_id = [0u8; 16];
    client_id[15] = id_byte;
    let mut udp_dest = [0u8; 387];
    udp_dest[0] = id_byte;
    ImuleNode { kad_version, client_id, udp_dest, udp_key: 0, udp_key_ip: 0, verified: true }
}

#[test]
fn closest_peers_with_fallback_keeps_distance_order() {
    let mut table = RoutingTable::new(KadId([0u8; 16]));
    for n in vec![make_node(1, 3), make_node(2, 3), make_node(3, 3), make_node(4, 3)] {
        let _ = table.upsert(n, NOW);
    }
    let target = KadId([0u8; 16]);
    let peers = closest_peers_with_fallback(&table, target, 2, 3, 0, NOW);
    let ids: Vec<u8> = peers.iter().map(|p| p.client_id[15]).collect();
    assert_eq!(ids, vec![1, 2, 3, 4]);
}

#[test]
fn closest_peers_with_fallback_filters_kad_version() {
    let mut table = RoutingTable::new(KadId([0u8; 16]));
    for n in vec![make_node(1, 2), make_node(2, 3), make_node(3, 4)] {
        let _ = table.upsert(n, NOW);
    }
    let target = KadId([0u8; 16]);
    let peers = closest_peers_with_fallback(&table, target, 2, 3, 0, NOW);
    let ids: Vec<u8> = peers.iter().map(|p| p.client_id[15]).collect();
    assert_eq!(ids, vec![2, 3]);
}

#[test]
fn fallback_puts_healthier_peers_first() {
    let mut table = RoutingTable::new(KadId([0u8; 16]));
    for n in vec![make_node(1, 3), make_node(2, 3)] {
        let _ = table.upsert(n, NOW);
    }
    let d1 = make_node(1, 3).udp_dest_b64();
    for _ in 0..3 {
        table.mark_failure_by_dest(&d1);
    }
    let peers = closest_peers_with_fallback(&table, KadId([0u8; 16]), 4, 3, 0, NOW);
    let ids: Vec<u8> = peers.iter().map(|p| p.client_id[15]).collect();
    assert_eq!(ids, vec![2, 1]);
}
