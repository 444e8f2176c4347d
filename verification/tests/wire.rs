use rust_mule::kad::wire::{
    decode_kad2_bootstrap_res, decode_kad2_hello, decode_kad2_publish_key_keyword_prefix,
    decode_kad2_publish_key_req, decode_kad2_publish_key_req_lenient, decode_kad2_publish_res,
    decode_kad2_publish_source_req_min, decode_kad2_req, decode_kad2_res, decode_kad2_search_res,
    decode_kad2_search_res_sources, decode_kad2_search_source_req, decode_kad2_search_key_req,
    decode_kad1_req, encode_kad2_bootstrap_res, encode_kad2_hello, encode_kad2_hello_req,
    encode_kad2_publish_key_req, encode_kad2_publish_res_for_source, encode_kad2_publish_source_req,
    encode_kad2_req, encode_kad2_res, encode_kad2_search_res_sources, encode_kad2_search_source_req,
    encode_kad2_search_key_req, encode_kad1_res, Kad2Contact, KadPacket, WireError, I2P_DEST_LEN,
    KADEMLIA2_PING, KADEMLIA2_PUBLISH_SOURCE_REQ, KADEMLIA2_SEARCH_SOURCE_REQ, OP_KADEMLIAHEADER,
    OP_KADEMLIAPACKEDPROT, TAG_COMPLETE_SOURCES, TAG_SOURCES, TAG_SOURCETYPE, TAGTYPE_UINT8,
};
use rust_mule::kad::KadId;

#[test]
fn decodes_unpacked_packet() {
    let raw = [OP_KADEMLIAHEADER, KADEMLIA2_PING, 1, 2, 3];
    let p = KadPacket::decode(&raw).unwrap();
    assert_eq!(p.protocol, OP_KADEMLIAHEADER);
    assert_eq!(p.opcode, KADEMLIA2_PING);
    assert_eq!(p.payload, vec![1, 2, 3]);
}

#[test]
fn kad2_publish_key_req_contains_sources_tags() {
    let keyword = KadId([0xAA; 16]);
    let file = KadId([0x11; 16]);
    let payload = encode_kad2_publish_key_req(keyword, &[(file, "x.bin", 123, None)]);

    let taglist_off = 16 + 2 + 16;
    assert!(payload.len() > taglist_off);
    assert_eq!(payload[taglist_off], 4);

    let want_complete = [0x83u8, TAG_COMPLETE_SOURCES, 1, 0, 0, 0];
    let want_sources = [0x83u8, TAG_SOURCES, 1, 0, 0, 0];

    assert!(
        payload
            .windows(want_complete.len())
            .any(|w| w == want_complete),
        "missing TAG_COMPLETE_SOURCES in publish taglist"
    );
    assert!(
        payload
            .windows(want_sources.len())
            .any(|w| w == want_sources),
        "missing TAG_SOURCES in publish taglist"
    );
}

#[test]
fn kad2_publish_key_req_lenient_extracts_keyword_on_truncation() {
    let keyword = KadId([0xAB; 16]);
    let file = KadId([0x11; 16]);
    let full = encode_kad2_publish_key_req(keyword, &[(file, "x.bin", 123, None)]);

    let truncated = &full[..(16 + 2 + 16 + 3)];
    let parsed = decode_kad2_publish_key_req_lenient(truncated).unwrap();
    assert_eq!(parsed.keyword, keyword);
    assert!(!parsed.complete);
}

#[test]
fn kad2_source_opcode_values_match_imule() {
    assert_eq!(KADEMLIA2_SEARCH_SOURCE_REQ, 0x15);
    assert_eq!(KADEMLIA2_PUBLISH_SOURCE_REQ, 0x19);
}

#[test]
fn kad2_search_source_req_layout_matches_imule() {
    let target = KadId([0x22; 16]);
    let file_size = 0x0102_0304_0506_0708u64;
    let payload = encode_kad2_search_source_req(target, 0x9123, file_size);

    assert_eq!(payload.len(), 16 + 2 + 8);
    assert_eq!(&payload[0..16], &target.to_crypt_bytes());
    assert_eq!(&payload[16..18], &(0x1123u16).to_le_bytes());
    assert_eq!(&payload[18..26], &file_size.to_le_bytes());

    let parsed = decode_kad2_search_source_req(&payload).unwrap();
    assert_eq!(parsed.target, target);
    assert_eq!(parsed.start_position, 0x1123);
    assert_eq!(parsed.file_size, file_size);
}

#[test]
fn kad2_publish_source_req_layout_has_required_source_tags() {
    let file = KadId([0x33; 16]);
    let source = KadId([0x44; 16]);
    let udp_dest = [0x55; I2P_DEST_LEN];
    let payload = encode_kad2_publish_source_req(file, source, &udp_dest, Some(123));

    assert_eq!(&payload[0..16], &file.to_crypt_bytes());
    assert_eq!(&payload[16..32], &source.to_crypt_bytes());
    assert!(payload.len() > 32);

    let taglist = &payload[32..];
    assert_eq!(
        taglist[0], 4,
        "expected SOURCETYPE+SOURCEDEST+SOURCEUDEST+FILESIZE"
    );

    let sourcetype_tag = [TAGTYPE_UINT8 | 0x80, TAG_SOURCETYPE, 1];
    assert!(
        taglist
            .windows(sourcetype_tag.len())
            .any(|w| w == sourcetype_tag),
        "missing TAG_SOURCETYPE in publish-source taglist"
    );

    let parsed_min = decode_kad2_publish_source_req_min(&payload).unwrap();
    assert_eq!(parsed_min.file, file);
    assert_eq!(parsed_min.source, source);
}

#[test]
fn decode_kad2_bootstrap_res_rejects_truncated_large_count() {
    let sender = KadId([1; 16]);
    let mut payload = Vec::new();
    payload.extend_from_slice(&sender.to_crypt_bytes());
    payload.push(8);
    payload.extend_from_slice(&[0u8; I2P_DEST_LEN]);
    payload.extend_from_slice(&u16::MAX.to_le_bytes());
    assert!(decode_kad2_bootstrap_res(&payload).is_err());
}

#[test]
fn decode_kad2_publish_key_req_rejects_truncated_large_count() {
    let keyword = KadId([2; 16]);
    let mut payload = Vec::new();
    payload.extend_from_slice(&keyword.to_crypt_bytes());
    payload.extend_from_slice(&u16::MAX.to_le_bytes());
    assert!(decode_kad2_publish_key_req(&payload).is_err());
}

#[test]
fn decode_kad2_search_res_rejects_truncated_large_count() {
    let sender = KadId([3; 16]);
    let key = KadId([4; 16]);
    let mut payload = Vec::new();
    payload.extend_from_slice(&sender.to_crypt_bytes());
    payload.extend_from_slice(&key.to_crypt_bytes());
    payload.extend_from_slice(&u16::MAX.to_le_bytes());
    assert!(decode_kad2_search_res(&payload).is_err());
}

#[test]
fn decode_kad2_res_rejects_truncated_large_count() {
    let target = KadId([5; 16]);
    let mut payload = Vec::new();
    payload.extend_from_slice(&target.to_crypt_bytes());
    payload.push(u8::MAX);
    assert!(decode_kad2_res(&payload).is_err());
}

// ---- further scenarios ----

fn id(b: u8) -> KadId {
    let mut a = [0u8; 16];
    for (i, v) in a.iter_mut().enumerate() {
        *v = b.wrapping_add(i as u8);
    }
    KadId(a)
}

#[test]
fn crypt_bytes_reverse_each_word() {
    let k = id(0);
    let c = k.to_crypt_bytes();
    assert_eq!(&c[0..4], &[3, 2, 1, 0]);
    assert_eq!(&c[12..16], &[15, 14, 13, 12]);
    assert_eq!(KadId::from_crypt_bytes(&c), k);
}

#[test]
fn kad2_req_roundtrip_clamps_count() {
    let p = encode_kad2_req(40, id(1), id(2), id(3));
    assert_eq!(p[0], 31);
    let r = decode_kad2_req(&p).unwrap();
    assert_eq!(r.requested_contacts, 31);
    assert_eq!(r.target, id(1));
    assert_eq!(r.check, id(2));
    assert_eq!(r.sender_id, Some(id(3)));
    let z = encode_kad2_req(0, id(1), id(2), id(3));
    assert_eq!(z[0], 1);
    // without the sender id
    let r2 = decode_kad2_req(&p[..33]).unwrap();
    assert_eq!(r2.sender_id, None);
}

#[test]
fn kad2_req_zero_count_is_invalid() {
    let mut p = encode_kad2_req(1, id(1), id(2), id(3));
    p[0] = 0x20;
    match decode_kad2_req(&p) {
        Err(WireError::InvalidFormat(m)) => assert_eq!(m, "kademlia2 req requested_contacts=0"),
        other => panic!("unexpected {:?}", other),
    }
}

#[test]
fn kad1_req_needs_three_ids() {
    let mut p = vec![2u8];
    p.extend_from_slice(&id(1).to_crypt_bytes());
    p.extend_from_slice(&id(2).to_crypt_bytes());
    p.extend_from_slice(&id(3).to_crypt_bytes());
    let r = decode_kad1_req(&p).unwrap();
    assert_eq!(r.kind, 2);
    assert_eq!(r.sender_id, id(3));
    match decode_kad1_req(&p[..40]) {
        Err(WireError::UnexpectedEof { offset }) => assert_eq!(offset, 37),
        other => panic!("unexpected {:?}", other),
    }
}

#[test]
fn kad2_res_roundtrip_with_contacts() {
    let contacts = vec![
        Kad2Contact { kad_version: 6, node_id: id(7), udp_dest: [7u8; I2P_DEST_LEN] },
        Kad2Contact { kad_version: 8, node_id: id(9), udp_dest: [9u8; I2P_DEST_LEN] },
    ];
    let p = encode_kad2_res(id(1), &contacts);
    assert_eq!(p.len(), 17 + 2 * 404);
    let r = decode_kad2_res(&p).unwrap();
    assert_eq!(r.target, id(1));
    assert_eq!(r.contacts.len(), 2);
    assert_eq!(r.contacts[1].kad_version, 8);
    assert_eq!(r.contacts[1].node_id, id(9));
    assert_eq!(r.contacts[1].udp_dest, [9u8; I2P_DEST_LEN]);
    // cut inside the second contact's id: the error points at the last full word
    match decode_kad2_res(&p[..17 + 404 + 1 + 6]) {
        Err(WireError::UnexpectedEof { offset }) => assert_eq!(offset, 17 + 404 + 1 + 4),
        other => panic!("unexpected {:?}", other),
    }
}

#[test]
fn bootstrap_res_roundtrip() {
    let contacts = vec![Kad2Contact { kad_version: 5, node_id: id(3), udp_dest: [3u8; I2P_DEST_LEN] }];
    let p = encode_kad2_bootstrap_res(id(2), 8, &[1u8; I2P_DEST_LEN], &contacts);
    let r = decode_kad2_bootstrap_res(&p).unwrap();
    assert_eq!(r.sender_id, id(2));
    assert_eq!(r.sender_kad_version, 8);
    assert_eq!(r.sender_tcp_dest, [1u8; I2P_DEST_LEN]);
    assert_eq!(r.contacts.len(), 1);
    assert_eq!(r.contacts[0].node_id, id(3));
}

#[test]
fn hello_carries_agent_and_hello_req_has_empty_taglist() {
    let p = encode_kad2_hello(8, id(4), &[4u8; I2P_DEST_LEN]);
    let h = decode_kad2_hello(&p).unwrap();
    assert_eq!(h.kad_version, 8);
    assert_eq!(h.node_id, id(4));
    assert_eq!(h.agent.as_deref(), Some("rust-mule/0.1.0"));
    assert!(h.tags.is_empty());

    let q = encode_kad2_hello_req(1, id(5), &[5u8; I2P_DEST_LEN]);
    assert_eq!(q.len(), 1 + 16 + I2P_DEST_LEN + 1);
    let h2 = decode_kad2_hello(&q).unwrap();
    assert_eq!(h2.kad_version, 1);
    assert!(h2.agent.is_none());
}

#[test]
fn hello_reads_integer_tags_and_debug_serial_layout() {
    let mut p = vec![8u8];
    p.extend_from_slice(&id(6).to_crypt_bytes());
    p.extend_from_slice(&[6u8; I2P_DEST_LEN]);
    // two uint8 tags, each with an extra 32-bit serial after the header:
    // read without serials the second tag has type 0x3B, so the serial layout is used
    p.extend_from_slice(&[2, 0x89, 0x58, 0xAA, 0xBB, 0xCC, 0xDD, 0x07, 0x89, 0x59, 1, 2, 3, 4, 0x09]);
    let h = decode_kad2_hello(&p).unwrap();
    assert_eq!(h.tags.get(&0x58), Some(&7u64));
    assert_eq!(h.tags.get(&0x59), Some(&9u64));

    // a single tag reads fine without serials, so that layout wins
    let mut q = vec![8u8];
    q.extend_from_slice(&id(6).to_crypt_bytes());
    q.extend_from_slice(&[6u8; I2P_DEST_LEN]);
    q.extend_from_slice(&[1, 0x89, 0x58, 0xAA, 0xBB, 0xCC, 0xDD, 0x07]);
    let h = decode_kad2_hello(&q).unwrap();
    assert_eq!(h.tags.get(&0x58), Some(&0xAAu64));
}

#[test]
fn unknown_tag_type_is_reported() {
    let mut p = vec![8u8];
    p.extend_from_slice(&id(6).to_crypt_bytes());
    p.extend_from_slice(&[6u8; I2P_DEST_LEN]);
    p.extend_from_slice(&[1, 0xFF, 0x01]);
    match decode_kad2_hello(&p) {
        Err(WireError::InvalidFormat(m)) => assert_eq!(m, "unknown tag type 0x7f"),
        other => panic!("unexpected {:?}", other),
    }
}

#[test]
fn search_res_sources_roundtrip() {
    let results = vec![(id(1), [0x11u8; I2P_DEST_LEN]), (id(2), [0x22u8; I2P_DEST_LEN])];
    let p = encode_kad2_search_res_sources(id(9), id(8), &results);
    let r = decode_kad2_search_res_sources(&p).unwrap();
    assert_eq!(r.sender_id, id(9));
    assert_eq!(r.key, id(8));
    assert_eq!(r.results.len(), 2);
    assert_eq!(r.results[1].source_id, id(2));
    assert_eq!(r.results[1].udp_dest, Some([0x22u8; I2P_DEST_LEN]));
    assert_eq!(r.results[1].source_type, Some(1));
}

#[test]
fn publish_key_req_roundtrip_with_file_type() {
    let p = encode_kad2_publish_key_req(id(1), &[(id(2), "song.mp3", 4096, Some("Audio"))]);
    let r = decode_kad2_publish_key_req(&p).unwrap();
    assert_eq!(r.keyword, id(1));
    assert_eq!(r.entries.len(), 1);
    assert_eq!(r.entries[0].file, id(2));
    assert_eq!(r.entries[0].filename.as_deref(), Some("song.mp3"));
    assert_eq!(r.entries[0].file_size, Some(4096));
    assert_eq!(r.entries[0].file_type.as_deref(), Some("Audio"));
    let lenient = decode_kad2_publish_key_req_lenient(&p).unwrap();
    assert!(lenient.complete);
    assert_eq!(lenient.declared_count, 1);
    assert_eq!(lenient.entries.len(), 1);
}

#[test]
fn publish_res_and_prefix() {
    let p = encode_kad2_publish_res_for_source(id(3), 10, 2, 50);
    let r = decode_kad2_publish_res(&p).unwrap();
    assert_eq!((r.file, r.source_count, r.complete_count, r.load), (id(3), 10, 2, 50));
    assert_eq!(decode_kad2_publish_key_keyword_prefix(&p).unwrap(), id(3));
    match decode_kad2_publish_key_keyword_prefix(&p[..5]) {
        Err(WireError::InvalidFormat(m)) => {
            assert_eq!(m, "publish-key payload too short for keyword prefix: 5 bytes")
        }
        other => panic!("unexpected {:?}", other),
    }
}

#[test]
fn search_key_req_masks_restrictive_bit() {
    let p = encode_kad2_search_key_req(id(1), 0x8005);
    let r = decode_kad2_search_key_req(&p).unwrap();
    assert_eq!(r.start_position, 5);
    assert!(!r.restrictive);
    let mut raw = p.clone();
    raw[17] |= 0x80;
    let r2 = decode_kad2_search_key_req(&raw).unwrap();
    assert!(r2.restrictive);
}

#[test]
fn kad1_res_layout() {
    let p = encode_kad1_res(id(1), &[(id(2), [2u8; I2P_DEST_LEN])]);
    assert_eq!(p.len(), 16 + 1 + 16 + 2 * I2P_DEST_LEN + 1);
    assert_eq!(p[16], 1);
    assert_eq!(*p.last().unwrap(), 3);
}

#[test]
fn packet_encode_and_packed_decode() {
    let e = KadPacket::encode(0x1E, &[9, 8]);
    assert_eq!(e, vec![OP_KADEMLIAHEADER, 0x1E, 9, 8]);
    let mut packed = vec![OP_KADEMLIAPACKEDPROT, 0x1E];
    packed.extend_from_slice(&[0x78, 0x9c, 0xcb, 0x48, 0xcd, 0xc9, 0xc9, 0x07, 0x00, 0x06, 0x2c, 0x02, 0x15]);
    let d = KadPacket::decode(&packed).unwrap();
    assert_eq!(d.protocol, OP_KADEMLIAHEADER);
    assert_eq!(d.payload, b"hello");
    match KadPacket::decode(&[0x42, 1]) {
        Err(WireError::InvalidFormat(m)) => assert_eq!(m, "unknown kademlia protocol byte: 0x42"),
        other => panic!("unexpected {:?}", other),
    }
    match KadPacket::decode(&[5]) {
        Err(WireError::InvalidFormat(m)) => assert_eq!(m, "kademlia packet too short: 1 bytes"),
        other => panic!("unexpected {:?}", other),
    }
}

#[test]
fn search_res_keyword_entries_decode() {
    let p = encode_kad2_publish_key_req(id(1), &[(id(2), "a.bin", 1, None)]);
    // a search result has sender + key + count; reuse the keyword entry as a result
    let mut res = Vec::new();
    res.extend_from_slice(&id(7).to_crypt_bytes());
    res.extend_from_slice(&p[..16]);
    res.extend_from_slice(&p[16..]);
    let r = decode_kad2_search_res(&res).unwrap();
    assert_eq!(r.results.len(), 1);
    assert_eq!(r.results[0].tags.filename.as_deref(), Some("a.bin"));
    assert_eq!(r.results[0].tags.file_size, Some(1));
}
