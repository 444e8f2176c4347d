use rust_mule::kad::routing::RoutingTable;
use rust_mule::kad::service::inbound::{answer_publish_source_req, answer_search_source_req, InboundPacket};
use rust_mule::kad::service::sources::{SourceProbes, SourceStore, SOURCE_PROBE_MAX_TRACKED_FILES};
use rust_mule::kad::service::KadServiceCrypto;
use rust_mule::kad::wire::{decode_kad2_search_res_sources, KadPacket};
use rust_mule::kad::KadId;
use rust_mule::i2p::b64::encode;

const MS: u64 = 1_000_000;
const T0: u64 = 5_000_000_000;

#[test]
fn build_status_reports_source_store_totals() {
    let mut store = SourceStore::new();
    let file_a = KadId([1u8; 16]);
    let file_b = KadId([2u8; 16]);
    store.insert(file_a, KadId([3u8; 16]), [11u8; 387]);
    store.insert(file_a, KadId([4u8; 16]), [12u8; 387]);
    store.insert(file_b, KadId([5u8; 16]), [13u8; 387]);
    assert_eq!(store.totals(), (2, 3));
}

#[test]
fn source_probe_tracks_first_send_response_latency_and_results() {
    let mut probes = SourceProbes::new();
    let file = KadId([9u8; 16]);
    let t1 = T0 + 25 * MS;
    let t2 = T0 + 40 * MS;
    let t3 = T0 + 75 * MS;

    probes.mark_publish_sent(file, T0);
    probes.mark_search_sent(file, t1);
    let (first_pub, pub_latency) = probes.on_publish_response(file, t2);
    let (first_search, search_latency) = probes.on_search_response(file, 3, t3);

    let st = probes.state_of(&file).expect("probe state exists");
    assert_eq!(st.search_result_events, 1);
    assert_eq!(st.search_results_total, 3);
    assert_eq!(st.last_search_results, 3);
    assert!(st.first_publish_sent_at.is_some());
    assert!(st.first_search_sent_at.is_some());
    assert!(st.first_publish_res_at.is_some());
    assert!(st.first_search_res_at.is_some());

    assert!(first_pub);
    assert!(first_search);
    assert_eq!(pub_latency, Some(40));
    assert_eq!(search_latency, Some(50));

    // later answers are not first answers
    assert_eq!(probes.on_publish_response(file, t3), (false, None));
    assert_eq!(probes.on_search_response(file, 2, t3).0, false);
    let st = probes.state_of(&file).unwrap();
    assert_eq!(st.search_result_events, 2);
    assert_eq!(st.search_results_total, 5);
    assert_eq!(st.last_search_results, 2);
}

#[test]
fn source_probe_makes_room_by_dropping_the_stalest() {
    let mut probes = SourceProbes::new();
    for i in 0..SOURCE_PROBE_MAX_TRACKED_FILES {
        let mut id = [0u8; 16];
        id[0] = (i / 256) as u8;
        id[1] = (i % 256) as u8;
        probes.mark_search_sent(KadId(id), T0 + 10 + i as u64);
    }
    let oldest = KadId([0u8; 16]);
    assert!(probes.state_of(&oldest).is_some());
    probes.mark_search_sent(KadId([0xff; 16]), T0 + 100_000);
    assert_eq!(probes.states.len(), SOURCE_PROBE_MAX_TRACKED_FILES);
    assert!(probes.state_of(&oldest).is_none());
    assert!(probes.state_of(&KadId([0xff; 16])).is_some());
}

#[test]
fn source_store_orders_and_windows_sources() {
    let mut store = SourceStore::new();
    let f = KadId([1u8; 16]);
    assert!(store.insert(f, KadId([9u8; 16]), [1u8; 387]));
    assert!(store.insert(f, KadId([3u8; 16]), [2u8; 387]));
    assert!(!store.insert(f, KadId([9u8; 16]), [7u8; 387]));
    assert_eq!(store.count_for(&f), 2);
    let all = store.sources_for(&f, 0, 64);
    assert_eq!(all.len(), 2);
    assert_eq!(all[0].0, KadId([3u8; 16]));
    assert_eq!(all[1].1, [7u8; 387]);
    assert_eq!(store.sources_for(&f, 1, 64).len(), 1);
    assert!(store.sources_for(&f, 2, 64).is_empty());
    assert!(store.sources_for(&KadId([2u8; 16]), 0, 64).is_empty());

    let crypto = KadServiceCrypto { my_kad_id: KadId([0x11; 16]), my_dest_hash: 5, udp_key_secret: 77, my_dest: [0xAB; 387] };
    assert!(store.cache_local_published_source(&crypto, f));
    assert!(!store.cache_local_published_source(&crypto, f));
    assert_eq!(store.count_for(&f), 3);
}

fn packet(opcode: u8, payload: Vec<u8>) -> InboundPacket {
    InboundPacket {
        from_hash: 0,
        was_obfuscated: false,
        sender_verify_key: 0,
        receiver_verify_key: 0,
        valid_receiver_key: false,
        opcode,
        payload,
    }
}

#[test]
fn published_sources_are_stored_and_served() {
    let mut rt = RoutingTable::new(KadId([0x11; 16]));
    let mut store = SourceStore::new();
    let crypto = KadServiceCrypto { my_kad_id: KadId([0x11; 16]), my_dest_hash: 5, udp_key_secret: 77, my_dest: [0xAB; 387] };
    let from = encode(&[0x42u8; 387]);
    let mut req = vec![0x21u8; 16];
    req.extend_from_slice(&[0x31u8; 16]);
    let reply = answer_publish_source_req(&mut rt, &mut store, &from, &packet(0x3C, req), T0).unwrap();
    let pkt = KadPacket::decode(&reply).unwrap();
    assert_eq!(pkt.opcode, 0x1B);
    assert_eq!(store.count_for(&KadId([0x21; 16])), 1);

    let mut q = vec![0x21u8; 16];
    q.extend_from_slice(&[0, 0]);
    q.extend_from_slice(&[0u8; 8]);
    let reply = answer_search_source_req(&mut rt, &store, "peer", &packet(0x34, q), &crypto, T0).unwrap();
    let pkt = KadPacket::decode(&reply).unwrap();
    assert_eq!(pkt.opcode, 0x17);
    let res = decode_kad2_search_res_sources(&pkt.payload).unwrap();
    assert_eq!(res.key, KadId([0x21; 16]));
    assert_eq!(res.results.len(), 1);

    // a sender name that is not a destination stores nothing but is answered
    let mut req = vec![0x22u8; 16];
    req.extend_from_slice(&[0x31u8; 16]);
    assert!(answer_publish_source_req(&mut rt, &mut store, "peer", &packet(0x3C, req), T0).is_some());
    assert_eq!(store.count_for(&KadId([0x22; 16])), 0);
    assert!(answer_search_source_req(&mut rt, &store, "peer", &packet(0x34, vec![1; 25]), &crypto, T0).is_none());
}
