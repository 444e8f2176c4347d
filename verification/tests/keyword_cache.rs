use rust_mule::kad::routing::RoutingTable;
use rust_mule::kad::service::inbound::{answer_publish_key_req, answer_search_key_req, InboundPacket};
use rust_mule::kad::service::keyword::{KeywordCache, KeywordEntry, KeywordHits};
use rust_mule::kad::service::{KadKeywordHit, KadKeywordHitOrigin, KadServiceConfig, KadServiceCrypto};
use rust_mule::kad::wire::{
    decode_kad2_publish_res_key, decode_kad2_search_res, encode_kad2_publish_key_req, Kad2PublishKeyEntry, KadPacket,
};
use rust_mule::kad::KadId;

const SEC: u64 = 1_000_000_000;
const NOW: u64 = 10_000 * SEC;

fn hit(file: u8, name: &str, origin: KadKeywordHitOrigin) -> KadKeywordHit {
    KadKeywordHit {
        file_id: KadId([file; 16]),
        filename: name.to_string(),
        file_size: file as u64 * 100,
        file_type: None,
        publish_info: None,
        origin,
    }
}

fn entry(kw: u8, file: u8, seen: u64) -> KeywordEntry {
    KeywordEntry { keyword: KadId([kw; 16]), last_seen: seen, hit: hit(file, "f", KadKeywordHitOrigin::Network) }
}

fn files(h: &KeywordHits) -> Vec<(u8, u8)> {
    h.entries.iter().map(|e| (e.keyword.0[0], e.hit.file_id.0[0])).collect()
}

fn cfg() -> KadServiceConfig {
    KadServiceConfig::default()
}

#[test]
fn hits_stay_ordered_and_replace_by_key() {
    let mut h = KeywordHits::new();
    assert!(h.upsert(entry(2, 5, NOW)));
    assert!(h.upsert(entry(1, 9, NOW)));
    assert!(h.upsert(entry(2, 1, NOW)));
    assert!(!h.upsert(entry(2, 5, NOW + SEC)));
    assert_eq!(files(&h), vec![(1, 9), (2, 1), (2, 5)]);
    assert_eq!(h.entries[2].last_seen, NOW + SEC);
    assert_eq!(h.keyword_count(), 2);
    assert_eq!(h.count_for(&KadId([2; 16])), 2);
    assert_eq!(h.remove_keyword(&KadId([2; 16])), 2);
    assert_eq!(files(&h), vec![(1, 9)]);
}

#[test]
fn pruning_drops_the_oldest_hits_first() {
    let mut h = KeywordHits::new();
    h.upsert(entry(1, 1, NOW + 30));
    h.upsert(entry(1, 2, NOW + 10));
    h.upsert(entry(1, 3, NOW + 20));
    h.upsert(entry(7, 1, NOW));
    assert_eq!(h.prune_keyword(&KadId([1; 16]), 1), 2);
    assert_eq!(files(&h), vec![(1, 1), (7, 1)]);

    // equal times: the lower file goes first
    let mut h = KeywordHits::new();
    h.upsert(entry(1, 4, NOW));
    h.upsert(entry(1, 3, NOW));
    assert_eq!(h.prune_keyword(&KadId([1; 16]), 1), 1);
    assert_eq!(files(&h), vec![(1, 4)]);
}

#[test]
fn hits_for_returns_a_window_in_file_order() {
    let mut h = KeywordHits::new();
    for f in [5u8, 1, 3, 4, 2] {
        h.upsert(entry(1, f, NOW));
    }
    h.upsert(entry(2, 9, NOW));
    let ids = |v: Vec<KadKeywordHit>| v.iter().map(|x| x.file_id.0[0]).collect::<Vec<u8>>();
    assert_eq!(ids(h.hits_for(&KadId([1; 16]), 0, 64)), vec![1, 2, 3, 4, 5]);
    assert_eq!(ids(h.hits_for(&KadId([1; 16]), 1, 2)), vec![2, 3]);
    assert!(h.hits_for(&KadId([1; 16]), 5, 2).is_empty());
    assert!(h.hits_for(&KadId([3; 16]), 0, 64).is_empty());
}

#[test]
fn interest_limit_evicts_the_oldest_interest_with_its_hits() {
    let c = cfg();
    let mut k = KeywordCache::new();
    k.touch_interest(2, KadId([1; 16]), NOW + 1);
    k.touch_interest(2, KadId([2; 16]), NOW + 2);
    k.upsert_hit(&c, NOW, KadId([1; 16]), hit(1, "a", KadKeywordHitOrigin::Network));
    k.upsert_hit(&c, NOW, KadId([2; 16]), hit(2, "b", KadKeywordHitOrigin::Network));
    assert_eq!(k.hits.len(), 2);
    k.touch_interest(2, KadId([1; 16]), NOW + 3);
    k.touch_interest(2, KadId([3; 16]), NOW + 4);
    assert_eq!(k.interest.len(), 2);
    assert!(!k.is_interested(&KadId([2; 16])));
    assert!(k.is_interested(&KadId([1; 16])));
    assert_eq!(files(&k.hits), vec![(1, 1)]);

    k.enforce_interest_limit(0);
    assert!(k.interest.is_empty());
    assert_eq!(k.hits.len(), 0);
}

#[test]
fn hits_without_interest_are_ignored_when_interest_is_required() {
    let c = cfg();
    assert!(c.keyword_require_interest);
    let mut k = KeywordCache::new();
    k.upsert_hit(&c, NOW, KadId([1; 16]), hit(1, "a", KadKeywordHitOrigin::Local));
    assert_eq!(k.hits.len(), 0);
    let mut open = cfg();
    open.keyword_require_interest = false;
    k.upsert_hit(&open, NOW, KadId([1; 16]), hit(1, "a", KadKeywordHitOrigin::Local));
    assert_eq!(k.hits.len(), 1);
}

#[test]
fn size_limits_cap_per_keyword_and_total() {
    let mut c = cfg();
    c.keyword_max_hits_per_keyword = 2;
    c.keyword_max_total_hits = 3;
    let mut k = KeywordCache::new();
    k.touch_interest(10, KadId([1; 16]), NOW + 1);
    k.touch_interest(10, KadId([2; 16]), NOW + 2);
    for (f, t) in [(1u8, 5u64), (2, 6), (3, 7)] {
        k.upsert_hit(&c, NOW + t, KadId([2; 16]), hit(f, "x", KadKeywordHitOrigin::Network));
    }
    assert_eq!(files(&k.hits), vec![(2, 2), (2, 3)]);
    k.upsert_hit(&c, NOW, KadId([1; 16]), hit(9, "y", KadKeywordHitOrigin::Network));
    assert_eq!(k.hits.len(), 3);
    k.upsert_hit(&c, NOW, KadId([1; 16]), hit(8, "z", KadKeywordHitOrigin::Network));
    // four hits: the oldest interest (keyword 1) goes with its hits
    assert_eq!(files(&k.hits), vec![(2, 2), (2, 3)]);
    assert!(!k.is_interested(&KadId([1; 16])));
}

#[test]
fn maintain_expires_interest_and_results() {
    let mut c = cfg();
    c.keyword_interest_ttl_secs = 10; // raised to the one-minute floor
    c.keyword_results_ttl_secs = 120;
    let mut k = KeywordCache::new();
    k.touch_interest(10, KadId([1; 16]), NOW);
    k.touch_interest(10, KadId([2; 16]), NOW + 100 * SEC);
    k.upsert_hit(&c, NOW, KadId([1; 16]), hit(1, "a", KadKeywordHitOrigin::Network));
    k.upsert_hit(&c, NOW, KadId([2; 16]), hit(2, "b", KadKeywordHitOrigin::Network));
    k.upsert_hit(&c, NOW + 100 * SEC, KadId([2; 16]), hit(3, "c", KadKeywordHitOrigin::Network));
    k.maintain(&c, NOW + 130 * SEC);
    assert!(!k.is_interested(&KadId([1; 16])));
    assert!(k.is_interested(&KadId([2; 16])));
    assert_eq!(files(&k.hits), vec![(2, 3)]);
}

#[test]
fn publish_keeps_origin_and_skips_incomplete_entries() {
    let c = cfg();
    let mut s = KeywordHits::new();
    let kw = KadId([4; 16]);
    let entries = vec![
        Kad2PublishKeyEntry { file: KadId([1; 16]), filename: Some("one".to_string()), file_size: Some(10), file_type: None },
        Kad2PublishKeyEntry { file: KadId([2; 16]), filename: Some(String::new()), file_size: Some(10), file_type: None },
        Kad2PublishKeyEntry { file: KadId([3; 16]), filename: Some("three".to_string()), file_size: None, file_type: None },
    ];
    assert_eq!(s.accept_publish(&c, kw, entries, NOW), 1);
    assert_eq!(files(&s), vec![(4, 1)]);
    s.entries[0].hit.origin = KadKeywordHitOrigin::Local;
    let again = vec![Kad2PublishKeyEntry {
        file: KadId([1; 16]),
        filename: Some("uno".to_string()),
        file_size: Some(11),
        file_type: Some("Audio".to_string()),
    }];
    assert_eq!(s.accept_publish(&c, kw, again, NOW + SEC), 0);
    let e = &s.entries[0];
    assert_eq!(e.hit.filename, "uno");
    assert_eq!(e.hit.file_size, 11);
    assert_eq!(e.hit.origin, KadKeywordHitOrigin::Local);
    assert_eq!(e.last_seen, NOW + SEC);
}

#[test]
fn store_limits_drop_the_stalest_keywords() {
    let mut s = KeywordHits::new();
    s.upsert(entry(1, 1, NOW + 50));
    s.upsert(entry(2, 1, NOW + 10));
    s.upsert(entry(2, 2, NOW + 60));
    s.upsert(entry(3, 1, NOW + 20));
    s.enforce_store_limits(2, 100);
    assert_eq!(files(&s), vec![(1, 1), (2, 1), (2, 2)]);
    s.enforce_store_limits(2, 2);
    assert_eq!(files(&s), vec![(2, 1), (2, 2)]);
    s.enforce_store_limits(0, 5);
    assert_eq!(s.len(), 0);
}

#[test]
fn store_upkeep_expires_old_hits() {
    let mut c = cfg();
    c.store_keyword_evict_age_secs = 30; // raised to a minute
    let mut s = KeywordHits::new();
    s.upsert(entry(1, 1, NOW));
    s.upsert(entry(1, 2, NOW + 30 * SEC));
    s.maintain_store(&c, NOW + 60 * SEC);
    assert_eq!(files(&s), vec![(1, 2)]);
}

fn crypto() -> KadServiceCrypto {
    KadServiceCrypto { my_kad_id: KadId([0x11; 16]), my_dest_hash: 5, udp_key_secret: 77, my_dest: [0xAB; 387] }
}

fn packet(opcode: u8, payload: Vec<u8>) -> InboundPacket {
    InboundPacket {
        from_hash: 0,
        was_obfuscated: false,
        sender_verify_key: 0,
        receiver_verify_key: 0,
        valid_receiver_key: false,
        opcode,
        payload,
    }
}

#[test]
fn published_keywords_are_stored_acked_and_found() {
    let c = cfg();
    let mut rt = RoutingTable::new(KadId([0x11; 16]));
    let mut store = KeywordHits::new();
    let kw = KadId([0x42; 16]);
    let payload = encode_kad2_publish_key_req(kw, &[(KadId([7; 16]), "song.mp3", 1234, Some("Audio"))]);
    let reply = answer_publish_key_req(&mut rt, &mut store, &c, "peer", &packet(0x43, payload), NOW).unwrap();
    let pkt = KadPacket::decode(&reply).unwrap();
    assert_eq!(pkt.opcode, 0x1B);
    let ack = decode_kad2_publish_res_key(&pkt.payload).unwrap();
    assert_eq!(ack.key, kw);
    assert_eq!(ack.load, 0);
    assert_eq!(store.len(), 1);
    assert_eq!(store.entries[0].hit.filename, "song.mp3");

    let mut req = kw.0.to_vec();
    req.extend_from_slice(&[0, 0]);
    let reply = answer_search_key_req(&mut rt, &store, "peer", &packet(0x33, req), &crypto(), NOW).unwrap();
    let pkt = KadPacket::decode(&reply).unwrap();
    assert_eq!(pkt.opcode, 0x17);
    let res = decode_kad2_search_res(&pkt.payload).unwrap();
    assert_eq!(res.key, kw);
    assert_eq!(res.results.len(), 1);
    assert_eq!(res.results[0].answer, KadId([7; 16]));
    assert_eq!(res.results[0].tags.filename.as_deref(), Some("song.mp3"));
    assert_eq!(res.results[0].tags.file_size, Some(1234));

    // too short for a keyword: no answer, nothing stored
    assert!(answer_publish_key_req(&mut rt, &mut store, &c, "peer", &packet(0x43, vec![1, 2]), NOW).is_none());
    assert!(answer_search_key_req(&mut rt, &store, "peer", &packet(0x33, vec![1; 17]), &crypto(), NOW).is_none());
}
