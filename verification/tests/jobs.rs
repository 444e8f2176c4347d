use rust_mule::kad::service::jobs::KeywordBatch;
use rust_mule::kad::service::status::{contacts_decayed_fast, verified_pct};
use rust_mule::i2p::b64::encode;
use rust_mule::kad::routing::RoutingTable;
use rust_mule::kad::service::jobs::{
    delete_keyword_search, find_job, keyword_search_infos, note_publish_ack_for, progress_keyword_job,
    progress_keyword_jobs, start_keyword_publish, start_keyword_search, stop_keyword_search, KeywordJob,
    KeywordPublishSpec, KEYWORD_JOB_ACTION_BATCH, KEYWORD_JOB_TTL_NANOS,
};
use rust_mule::kad::service::keyword::KeywordCache;
use rust_mule::kad::service::policy::{debug_probe_plan, wants_dual_obfuscated_hello};
use rust_mule::kad::service::sources::SourceStore;
use rust_mule::kad::service::status::{build_status, peer_infos, KadServiceStats};
use rust_mule::kad::service::keyword::KeywordHits;
use rust_mule::kad::service::KadServiceConfig;
use rust_mule::kad::KadId;
use rust_mule::nodes::imule::ImuleNode;

const SEC: u64 = 1_000_000_000;
const NOW: u64 = 100_000 * SEC;

fn node(id: u8, dest: u8, version: u8) -> ImuleNode {
    ImuleNode {
        kad_version: version,
        client_id: [id; 16],
        udp_dest: [dest; 387],
        udp_key: 0,
        udp_key_ip: 0,
        verified: false,
    }
}

fn dest_of(dest: u8) -> String {
    encode(&[dest; 387])
}

fn table() -> RoutingTable {
    let mut rt = RoutingTable::new(KadId([0u8; 16]));
    rt.upsert(node(0x10, 1, 6), NOW);
    rt.upsert(node(0x20, 2, 2), NOW);
    rt.upsert(node(0x30, 3, 6), NOW);
    rt
}

fn spec() -> KeywordPublishSpec {
    KeywordPublishSpec {
        file: KadId([7u8; 16]),
        filename: "a file.txt".to_string(),
        file_size: 1234,
        file_type: None,
    }
}

fn dests(nodes: &[ImuleNode]) -> Vec<u8> {
    nodes.iter().map(|n| n.udp_dest[0]).collect()
}

#[test]
fn fresh_search_job_plans_lookup_and_search_and_moves_its_timers() {
    let rt = table();
    let cfg = KadServiceConfig::default();
    let kw = KadId([0x11u8; 16]);
    let mut job = KeywordJob::new(true, NOW);
    let pending = vec![dest_of(1)];
    let plan = progress_keyword_job(&mut job, kw, &rt, &pending, &cfg, NOW);

    // Lookup: query candidates minus the pending one, at most alpha (3).
    let mut lookup = dests(&plan.lookup);
    lookup.sort();
    assert_eq!(lookup, vec![2, 3]);
    // Search: version 3 and later only, nearest to the keyword first.
    let mut search = dests(&plan.search);
    search.sort();
    assert_eq!(search, vec![1, 3]);
    assert!(plan.publish.is_empty());

    assert_eq!(job.next_lookup_at, NOW + 45 * SEC);
    assert_eq!(job.next_search_at, NOW + 45 * SEC);
    assert_eq!(job.next_publish_at, NOW);
    assert_eq!(job.created_at, NOW);

    // Nothing is due again before the timers pass.
    let plan = progress_keyword_job(&mut job, kw, &rt, &pending, &cfg, NOW + SEC);
    assert!(plan.lookup.is_empty() && plan.search.is_empty() && plan.publish.is_empty());
    assert_eq!(KEYWORD_JOB_ACTION_BATCH, 5);
}

#[test]
fn search_batches_skip_nodes_already_searched() {
    let rt = table();
    let cfg = KadServiceConfig::default();
    let kw = KadId([0x11u8; 16]);
    let mut job = KeywordJob::new(true, NOW);
    job.record_search_sent(dest_of(1));
    let plan = progress_keyword_job(&mut job, kw, &rt, &Vec::new(), &cfg, NOW);
    assert_eq!(dests(&plan.search), vec![3]);
}

#[test]
fn publish_stops_after_ack_and_stopped_jobs_plan_nothing() {
    let rt = table();
    let cfg = KadServiceConfig::default();
    let kw = KadId([0x11u8; 16]);
    let mut job = KeywordJob::new(false, NOW);
    job.start_publish(spec(), NOW);
    let plan = progress_keyword_job(&mut job, kw, &rt, &Vec::new(), &cfg, NOW);
    let mut publish = dests(&plan.publish);
    publish.sort();
    assert_eq!(publish, vec![1, 3]);
    assert!(plan.search.is_empty());
    assert_eq!(job.next_publish_at, NOW + 45 * SEC);

    assert!(job.note_publish_ack());
    assert!(!job.note_publish_ack());
    let later = NOW + 50 * SEC;
    let plan = progress_keyword_job(&mut job, kw, &rt, &Vec::new(), &cfg, later);
    assert!(plan.publish.is_empty());
    // The publish is still there until settled, so a lookup still goes out.
    assert!(!plan.lookup.is_empty());
    job.settle_publish();
    assert!(job.publish.is_none());

    job.stop();
    let plan = progress_keyword_job(&mut job, kw, &rt, &Vec::new(), &cfg, NOW + 500 * SEC);
    assert!(plan.lookup.is_empty() && plan.search.is_empty() && plan.publish.is_empty());
}

#[test]
fn jobs_expire_after_two_hours() {
    let job = KeywordJob::new(true, NOW);
    assert_eq!(KEYWORD_JOB_TTL_NANOS, 2 * 60 * 60 * SEC);
    assert!(!job.is_expired(NOW + KEYWORD_JOB_TTL_NANOS));
    assert!(job.is_expired(NOW + KEYWORD_JOB_TTL_NANOS + 1));
    assert!(!job.is_expired(0));
}

#[test]
fn job_list_start_stop_ack_delete() {
    let a = KadId([1u8; 16]);
    let b = KadId([2u8; 16]);
    let mut jobs: Vec<(KadId, KeywordJob)> = Vec::new();
    assert_eq!(start_keyword_search(&mut jobs, a, NOW), 0);
    assert_eq!(start_keyword_publish(&mut jobs, b, spec(), NOW + SEC), 1);
    assert_eq!(start_keyword_publish(&mut jobs, a, spec(), NOW + 2 * SEC), 0);
    assert_eq!(jobs.len(), 2);
    assert!(jobs[0].1.want_search && jobs[0].1.publish.is_some());
    assert_eq!(jobs[0].1.created_at, NOW + 2 * SEC);
    assert!(!jobs[1].1.want_search);
    assert_eq!(find_job(&jobs, b), Some(1));

    assert!(note_publish_ack_for(&mut jobs, b));
    assert!(!note_publish_ack_for(&mut jobs, b));
    assert!(!note_publish_ack_for(&mut jobs, KadId([9u8; 16])));

    assert!(stop_keyword_search(&mut jobs, a));
    assert!(!jobs[0].1.want_search && jobs[0].1.publish.is_none() && jobs[0].1.got_publish_ack);
    assert!(!stop_keyword_search(&mut jobs, KadId([9u8; 16])));

    assert!(delete_keyword_search(&mut jobs, a));
    assert!(!delete_keyword_search(&mut jobs, a));
    assert_eq!(jobs.len(), 1);
    assert_eq!(jobs[0].0, b);
}

#[test]
fn periodic_tick_drops_expired_jobs_and_settles_acked_publishes() {
    let rt = table();
    let cfg = KadServiceConfig::default();
    let a = KadId([1u8; 16]);
    let b = KadId([2u8; 16]);
    let mut jobs: Vec<(KadId, KeywordJob)> = Vec::new();
    start_keyword_search(&mut jobs, a, NOW);
    start_keyword_publish(&mut jobs, b, spec(), NOW + KEYWORD_JOB_TTL_NANOS);
    note_publish_ack_for(&mut jobs, b);
    let now = NOW + KEYWORD_JOB_TTL_NANOS + SEC;
    let plans = progress_keyword_jobs(&mut jobs, &rt, &Vec::new(), &cfg, now);
    assert_eq!(jobs.len(), 1);
    assert_eq!(jobs[0].0, b);
    assert!(jobs[0].1.publish.is_none());
    assert_eq!(plans.len(), 1);
    assert_eq!(plans[0].0, b);
    assert!(plans[0].1.lookup.is_empty() && plans[0].1.search.is_empty() && plans[0].1.publish.is_empty());
}

#[test]
fn search_listing_is_sorted_by_age_with_states_and_hits() {
    let a = KadId([1u8; 16]);
    let b = KadId([2u8; 16]);
    let mut jobs: Vec<(KadId, KeywordJob)> = Vec::new();
    start_keyword_search(&mut jobs, a, NOW);
    start_keyword_publish(&mut jobs, b, spec(), NOW + 10 * SEC);
    note_publish_ack_for(&mut jobs, b);
    let mut cache = KeywordCache::new();
    cache.hits.publish(a, KadId([5u8; 16]), "x".to_string(), 1, None, NOW);
    cache.hits.publish(a, KadId([6u8; 16]), "y".to_string(), 2, None, NOW);
    let infos = keyword_search_infos(&jobs, &cache, NOW + 30 * SEC);
    assert_eq!(infos.len(), 2);
    assert_eq!(infos[0].keyword_id_hex, "02".repeat(16));
    assert_eq!(infos[0].search_id_hex, "02".repeat(16));
    assert_eq!(infos[0].created_secs_ago, 20);
    assert_eq!(infos[0].state, "complete");
    assert_eq!(infos[0].hits, 0);
    assert!(infos[0].publish_enabled && infos[0].got_publish_ack && !infos[0].want_search);
    assert_eq!(infos[1].keyword_id_hex, "01".repeat(16));
    assert_eq!(infos[1].created_secs_ago, 30);
    assert_eq!(infos[1].state, "running");
    assert_eq!(infos[1].hits, 2);
}

#[test]
fn peer_listing_puts_recently_heard_nodes_first() {
    let mut rt = table();
    rt.mark_seen_by_dest(&dest_of(3), NOW + 5 * SEC);
    rt.mark_seen_by_dest(&dest_of(2), NOW + 9 * SEC);
    let peers = peer_infos(&rt, NOW + 10 * SEC);
    assert_eq!(peers.len(), 3);
    assert_eq!(peers[0].udp_dest_b64, dest_of(2));
    assert_eq!(peers[0].last_inbound_secs_ago, Some(1));
    assert_eq!(peers[1].udp_dest_b64, dest_of(3));
    assert_eq!(peers[1].last_inbound_secs_ago, Some(5));
    assert_eq!(peers[2].udp_dest_b64, dest_of(1));
    assert_eq!(peers[2].last_inbound_secs_ago, None);
    assert_eq!(peers[2].last_seen_secs_ago, 10);
    assert_eq!(peers[2].kad_id_hex, "10".repeat(16));
    assert_eq!(peers[0].kad_version, 2);
}

#[test]
fn status_reports_sizes_and_window_then_resets_the_window() {
    let mut rt = table();
    rt.mark_seen_by_dest(&dest_of(3), NOW);
    let mut w = KadServiceStats::new();
    w.sent_reqs = 4;
    w.recv_ress = 3;
    w.timeouts = 1;
    let mut cache = KeywordCache::new();
    cache.hits.publish(KadId([1u8; 16]), KadId([5u8; 16]), "x".to_string(), 1, None, NOW);
    let store = KeywordHits::new();
    let mut sources = SourceStore::new();
    sources.insert(KadId([1u8; 16]), KadId([3u8; 16]), [11u8; 387]);
    let s = build_status(&rt, 2, &mut w, &cache, &store, &sources, 77, NOW + 60 * SEC);
    assert_eq!(s.uptime_secs, 77);
    assert_eq!(s.routing, 3);
    assert_eq!(s.live, 1);
    assert_eq!(s.live_10m, 1);
    assert_eq!(s.pending, 2);
    assert_eq!((s.sent_reqs, s.recv_req, s.recv_ress, s.recv_res, s.timeouts), (4, 4, 3, 3, 1));
    assert_eq!((s.keyword_keywords_tracked, s.keyword_hits_total), (1, 1));
    assert_eq!((s.store_keyword_keywords, s.store_keyword_hits_total), (0, 0));
    assert_eq!((s.source_store_files, s.source_store_entries_total), (1, 1));
    assert_eq!(w.sent_reqs, 0);
    assert_eq!(w.timeouts, 0);
    let s = build_status(&rt, 0, &mut w, &cache, &store, &sources, 78, NOW + 700 * SEC);
    assert_eq!(s.sent_reqs, 0);
    assert_eq!(s.live_10m, 0);
}

#[test]
fn debug_probe_sends_source_requests_by_version_and_dual_hello_only_with_our_key() {
    let mut cfg = KadServiceConfig::default();
    let mut p = node(1, 1, 6);
    p.udp_key = 99;
    p.udp_key_ip = 42;
    assert!(!wants_dual_obfuscated_hello(&cfg, &p, 42));
    cfg.hello_dual_obfuscated = true;
    assert!(wants_dual_obfuscated_hello(&cfg, &p, 42));
    assert!(!wants_dual_obfuscated_hello(&cfg, &p, 43));
    let plan = debug_probe_plan(&cfg, &p, 42);
    assert!(plan.dual_hello && plan.search_source && plan.publish_source);
    let plan = debug_probe_plan(&cfg, &node(1, 1, 3), 42);
    assert!(!plan.dual_hello && plan.search_source && !plan.publish_source);
    let plan = debug_probe_plan(&cfg, &node(1, 1, 2), 42);
    assert!(!plan.search_source && !plan.publish_source);
}

#[test]
fn keyword_batch_stops_after_five_requests_went_out() {
    let mut b = KeywordBatch::new();
    let mut tried = Vec::new();
    // Every other send fails; ten planned nodes.
    while let Some(i) = b.next_target(10) {
        tried.push(i);
        b.record(i % 2 == 0);
    }
    assert_eq!(b.sent, 5);
    assert_eq!(tried, (0..9).collect::<Vec<usize>>());
    let mut short = KeywordBatch::new();
    while let Some(_) = short.next_target(3) {
        short.record(true);
    }
    assert_eq!((short.next, short.sent), (3, 3));
}

#[test]
fn status_percent_and_decay_warning() {
    assert_eq!(verified_pct(1, 3), 33);
    assert_eq!(verified_pct(3, 3), 100);
    assert_eq!(verified_pct(5, 0), 0);
    assert!(contacts_decayed_fast(10, 2));
    assert!(!contacts_decayed_fast(10, 1));
    assert!(!contacts_decayed_fast(0, 5));
    assert!(!contacts_decayed_fast(3, 0));
    assert!(contacts_decayed_fast(3, 1));
}
