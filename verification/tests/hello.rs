use rust_mule::kad::service::keyword::KeywordCache;
use rust_mule::kad::service::responses::take_search_res;
use rust_mule::kad::service::sources::SourceStore;
use rust_mule::kad::service::KadServiceConfig;
use rust_mule::kad::wire::{encode_kad2_search_res_keyword, encode_kad2_search_res_sources};
use rust_mule::kad::service::responses::{classify_publish_res, PublishResKind};
use rust_mule::i2p::b64::encode;
use rust_mule::kad::routing::RoutingTable;
use rust_mule::kad::service::hello::{answer_hello_req, take_hello_res, take_seen_reply, HelloAck};
use rust_mule::kad::service::inbound::InboundPacket;
use rust_mule::kad::service::responses::{take_bootstrap_res, take_kad2_res};
use rust_mule::kad::service::KadServiceCrypto;
use rust_mule::kad::wire::{encode_kad2_bootstrap_res, encode_kad2_hello, encode_kad2_res, Kad2Contact};
use rust_mule::kad::KadId;

const NOW: u64 = 1_000_000_000_000;

fn crypto() -> KadServiceCrypto {
    KadServiceCrypto { my_kad_id: KadId([0x11; 16]), my_dest_hash: 5, udp_key_secret: 77, my_dest: [0xAB; 387] }
}

fn packet(payload: Vec<u8>, obfuscated: bool, sender_key: u32) -> InboundPacket {
    InboundPacket {
        from_hash: 0,
        was_obfuscated: obfuscated,
        sender_verify_key: sender_key,
        receiver_verify_key: 0,
        valid_receiver_key: false,
        opcode: 0,
        payload,
    }
}

#[test]
fn hello_req_teaches_the_sender_and_is_answered_with_an_ack_request() {
    let mut rt = RoutingTable::new(KadId([0x11; 16]));
    let from = encode(&[9u8; 387]);
    let hello = encode_kad2_hello(6, KadId([0x44; 16]), &[9u8; 387]);
    let reply = answer_hello_req(&mut rt, &from, &packet(hello, true, 3), &crypto(), NOW).expect("decodes");
    let st = rt.get_by_dest(&from).expect("sender learned");
    assert_eq!(st.node.client_id, [0x44; 16]);
    assert_eq!(st.node.kad_version, 6);
    assert_eq!(st.node.udp_key, 3);
    assert_eq!(st.node.udp_key_ip, 5);
    assert!(st.received_hello);
    assert_eq!(st.peer_agent.as_deref(), Some("rust-mule/0.1.0"));
    // Obfuscated toward a Kad 6 sender that wrote obfuscated.
    assert_eq!(reply.obfuscate_to, Some(KadId([0x44; 16])));
    let p = &reply.plain;
    assert_eq!(p[2], 8);
    assert_eq!(p[2 + 404], 2);
    assert_eq!(&p[p.len() - 3..], &[0x89, 88, 0x04]);

    let plain = answer_hello_req(&mut rt, &from, &packet(encode_kad2_hello(5, KadId([0x44; 16]), &[9u8; 387]), true, 3), &crypto(), NOW)
        .expect("decodes");
    assert_eq!(plain.obfuscate_to, None);

    let before = rt.len();
    assert!(answer_hello_req(&mut rt, &from, &packet(vec![1, 2, 3], false, 0), &crypto(), NOW).is_none());
    assert_eq!(rt.len(), before);
}

#[test]
fn hello_res_asking_for_an_ack_gets_one_only_with_a_sender_key() {
    let mut rt = RoutingTable::new(KadId([0x11; 16]));
    let from = encode(&[9u8; 387]);
    // Our own HELLO_RES body asks for an ack.
    let mut asker = RoutingTable::new(KadId([0x22; 16]));
    let reply = answer_hello_req(&mut asker, &from, &packet(encode_kad2_hello(6, KadId([0x44; 16]), &[9u8; 387]), false, 0), &crypto(), NOW)
        .unwrap();
    let body = reply.plain[2..].to_vec();
    match take_hello_res(&mut rt, &from, &packet(body.clone(), true, 0), &crypto(), NOW) {
        Some(HelloAck::SkippedNoKey) => {}
        other => panic!("unexpected {other:?}"),
    }
    match take_hello_res(&mut rt, &from, &packet(body, true, 9), &crypto(), NOW) {
        Some(HelloAck::Send(ack)) => {
            assert_eq!(ack.len(), 2 + 17);
            assert_eq!(&ack[2..18], &KadId([0x11; 16]).to_crypt_bytes());
            assert_eq!(ack[18], 0);
        }
        other => panic!("unexpected {other:?}"),
    }
    // A plain HELLO (agent tag only) asks for nothing.
    match take_hello_res(&mut rt, &from, &packet(encode_kad2_hello(6, KadId([0x44; 16]), &[9u8; 387]), true, 9), &crypto(), NOW) {
        Some(HelloAck::NotAsked) => {}
        other => panic!("unexpected {other:?}"),
    }
    assert!(rt.get_by_dest(&from).unwrap().received_hello);
}

fn contact(id: u8, dest: u8) -> Kad2Contact {
    Kad2Contact { kad_version: 6, node_id: KadId([id; 16]), udp_dest: [dest; 387] }
}

#[test]
fn kad2_res_upserts_contacts_and_counts_new_ones() {
    let mut rt = RoutingTable::new(KadId([0x11; 16]));
    let payload = encode_kad2_res(KadId([0x33; 16]), &[contact(0x40, 1), contact(0x41, 2), contact(0x11, 3)]);
    let got = take_kad2_res(&mut rt, "peer", &packet(payload.clone(), false, 0), NOW).expect("decodes");
    assert_eq!(got.target, KadId([0x33; 16]));
    assert_eq!(got.contact_ids, vec![KadId([0x40; 16]), KadId([0x41; 16]), KadId([0x11; 16])]);
    // Our own identifier is ignored.
    assert_eq!(got.inserted, 2);
    assert_eq!(rt.len(), 2);
    let again = take_kad2_res(&mut rt, "peer", &packet(payload, false, 0), NOW).unwrap();
    assert_eq!(again.inserted, 0);
    assert!(take_kad2_res(&mut rt, "peer", &packet(vec![0; 10], false, 0), NOW).is_none());
}

#[test]
fn bootstrap_res_learns_sender_and_contacts() {
    let mut rt = RoutingTable::new(KadId([0x11; 16]));
    let from = encode(&[7u8; 387]);
    let payload = encode_kad2_bootstrap_res(KadId([0x50; 16]), 8, &[7u8; 387], &[contact(0x40, 1), contact(0x41, 2)]);
    let (listed, grown) = take_bootstrap_res(&mut rt, &from, &packet(payload, false, 0), &crypto(), NOW).expect("decodes");
    assert_eq!(listed, 2);
    assert_eq!(grown, 3);
    let st = rt.get_by_dest(&from).unwrap();
    assert_eq!(st.node.kad_version, 8);
    assert_eq!(st.last_inbound, Some(NOW));
    assert!(take_bootstrap_res(&mut rt, &from, &packet(vec![1, 2], false, 0), &crypto(), NOW).is_none());
}

#[test]
fn pong_marks_the_sender_seen() {
    let mut rt = RoutingTable::new(KadId([0x11; 16]));
    let payload = encode_kad2_res(KadId([0x33; 16]), &[contact(0x40, 1)]);
    take_kad2_res(&mut rt, "peer", &packet(payload, false, 0), NOW).unwrap();
    let dest = encode(&[1u8; 387]);
    take_seen_reply(&mut rt, &dest, NOW + 5);
    assert_eq!(rt.get_by_dest(&dest).unwrap().last_inbound, Some(NOW + 5));
}

#[test]
fn search_res_feeds_sources_and_keyword_hits() {

    let mut rt = RoutingTable::new(KadId([0x11; 16]));
    let mut cache = KeywordCache::new();
    let mut sources = SourceStore::new();
    let mut cfg = KadServiceConfig::default();
    cfg.keyword_require_interest = false;
    let file = KadId([0x60; 16]);
    let payload = encode_kad2_search_res_sources(KadId([0x22; 16]), file, &[(KadId([1; 16]), [3u8; 387]), (KadId([2; 16]), [4u8; 387])]);
    let got = take_search_res(&mut rt, &mut cache, &mut sources, &cfg, "peer", &packet(payload.clone(), false, 0), NOW).unwrap();
    assert_eq!(got.key, file);
    assert_eq!((got.results, got.inserted_sources, got.keyword_entries), (2, 2, 0));
    assert_eq!(sources.totals(), (1, 2));
    let again = take_search_res(&mut rt, &mut cache, &mut sources, &cfg, "peer", &packet(payload, false, 0), NOW).unwrap();
    assert_eq!(again.inserted_sources, 0);

    let kw = KadId([0x70; 16]);
    let results = vec![
        (KadId([5; 16]), "a.txt".to_string(), 10u64, None),
        (KadId([6; 16]), "b.avi".to_string(), 20u64, Some("Video".to_string())),
    ];
    let payload = encode_kad2_search_res_keyword(KadId([0x22; 16]), kw, &results);
    let got = take_search_res(&mut rt, &mut cache, &mut sources, &cfg, "peer", &packet(payload.clone(), false, 0), NOW).unwrap();
    assert_eq!((got.results, got.inserted_sources, got.keyword_entries), (2, 0, 2));
    assert_eq!(cache.hits.count_for(&kw), 2);

    // With interest required and no interest, keyword hits are skipped.
    let mut strict = KeywordCache::new();
    cfg.keyword_require_interest = true;
    let got = take_search_res(&mut rt, &mut strict, &mut sources, &cfg, "peer", &packet(payload, false, 0), NOW).unwrap();
    assert_eq!(got.keyword_entries, 0);
    assert_eq!(strict.hits.len(), 0);

    assert!(take_search_res(&mut rt, &mut cache, &mut sources, &cfg, "peer", &packet(vec![1, 2, 3], false, 0), NOW).is_none());
}

#[test]
fn publish_res_shapes_are_told_by_length() {
    let mut key = vec![0u8; 17];
    key[3] = 9;
    match classify_publish_res(&key) {
        PublishResKind::Key(k) => assert_eq!(k.0[0], 9),
        other => panic!("unexpected {other:?}"),
    }
    assert!(matches!(classify_publish_res(&[0u8; 25]), PublishResKind::Source(_)));
    assert!(matches!(classify_publish_res(&[0u8; 20]), PublishResKind::Other));
}
