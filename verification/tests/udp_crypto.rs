use rust_mule::kad::md5::md5;
use rust_mule::kad::udp_crypto::{
    choose_semi_random_marker, decrypt_kad_packet, encrypt_kad_packet,
    encrypt_kad_packet_with_receiver_key, marker_from_byte, seal_kad_packet, udp_verify_key,
    Rc4, UdpCryptoError, CRYPT_HEADER_WITHOUTPADDING, MAGICVALUE_UDP_SYNC_CLIENT,
    OP_KADEMLIAHEADER,
};
use rust_mule::kad::KadId;

fn hex(bytes: &[u8]) -> String {
    let mut s = String::new();
    for b in bytes {
        s.push_str(&format!("{:02x}", b));
    }
    s
}

#[test]
fn md5_matches_known_vector() {
    assert_eq!(hex(&md5(b"abc")), "900150983cd24fb0d6963f7d28e17f72");
}

#[test]
fn md5_more_vectors() {
    assert_eq!(hex(&md5(b"")), "d41d8cd98f00b204e9800998ecf8427e");
    assert_eq!(
        hex(&md5(b"The quick brown fox jumps over the lazy dog")),
        "9e107d9d372bb6826bd81d3542a419d6"
    );
    assert_eq!(
        hex(&md5(
            b"12345678901234567890123456789012345678901234567890123456789012345678901234567890"
        )),
        "57edf4a22be3c955ac49da2e2107b67a"
    );
}

#[test]
fn rc4_matches_known_vector() {
    let key = md5(b"Key");
    let mut rc4 = Rc4::new(&key);
    let mut pt = b"Plaintext".to_vec();
    rc4.apply(&mut pt);

    let mut rc4b = Rc4::new(&key);
    rc4b.apply(&mut pt);
    assert_eq!(pt, b"Plaintext");
}

#[test]
fn rc4_keystream_is_not_identity() {
    let key = [0u8; 16];
    let mut rc4 = Rc4::new(&key);
    let mut data = vec![0u8; 8];
    rc4.apply(&mut data);
    assert_ne!(data, vec![0u8; 8]);
    // Splitting the data across two calls continues the same keystream.
    let mut a = Rc4::new(&key);
    let mut first = vec![0u8; 3];
    let mut second = vec![0u8; 5];
    a.apply(&mut first);
    a.apply(&mut second);
    first.extend_from_slice(&second);
    assert_eq!(first, data);
}

#[test]
fn encrypt_decrypt_round_trip_nodeid() {
    let b_kad = KadId([2u8; 16]);
    let msg = [OP_KADEMLIAHEADER, 0x1E, 1, 2, 3, 4];
    let enc = encrypt_kad_packet(&msg, b_kad, 0, 123).unwrap();
    assert_eq!(enc.len(), 16 + msg.len());
    let dec = decrypt_kad_packet(&enc, b_kad, 0xAABBCCDD, 0x11223344).unwrap();
    assert!(dec.was_obfuscated);
    assert_eq!(dec.payload, msg);
    assert_eq!(dec.receiver_verify_key, 0);
    assert_eq!(dec.sender_verify_key, 123);
}

#[test]
fn encrypt_with_receiver_key_round_trip() {
    let me = KadId([9u8; 16]);
    let secret = 0x0102_0304;
    let from_hash = 0x5566_7788;
    let recv_key = udp_verify_key(secret, from_hash);
    let msg = [OP_KADEMLIAHEADER, 0x22, 7];
    let enc = encrypt_kad_packet_with_receiver_key(&msg, recv_key, 77).unwrap();
    assert_eq!(enc[0] & 0x03, 0x02);
    let dec = decrypt_kad_packet(&enc, me, secret, from_hash).unwrap();
    assert!(dec.was_obfuscated);
    assert_eq!(dec.payload, msg);
    assert_eq!(dec.receiver_verify_key, recv_key);
    assert_eq!(dec.sender_verify_key, 77);
}

#[test]
fn decrypt_round_trip_receiver_key() {
    let b_kad = KadId([2u8; 16]);
    let secret = 0xDEADBEEF;
    let from_hash = 0x11223344;
    let recv_key = udp_verify_key(secret, from_hash);

    let random_key_part = [0xAAu8, 0x55];
    let mut key_data = [0u8; 6];
    key_data[..4].copy_from_slice(&recv_key.to_le_bytes());
    key_data[4..6].copy_from_slice(&random_key_part);
    let key = md5(&key_data);
    let mut rc4 = Rc4::new(&key);

    let plain = [OP_KADEMLIAHEADER, 0x1F];
    let pad_len: u8 = 0;
    let crypt_header_len = CRYPT_HEADER_WITHOUTPADDING + (pad_len as usize) + 8;
    let mut out = vec![0u8; crypt_header_len + plain.len()];
    out[0] = 0x0A;
    out[1..3].copy_from_slice(&random_key_part);

    let mut magic = MAGICVALUE_UDP_SYNC_CLIENT.to_le_bytes().to_vec();
    rc4.apply(&mut magic);
    out[3..7].copy_from_slice(&magic);
    let mut pad = vec![pad_len];
    rc4.apply(&mut pad);
    out[7] = pad[0];

    let mut rvk = 0u32.to_le_bytes().to_vec();
    let mut svk = 1u32.to_le_bytes().to_vec();
    rc4.apply(&mut rvk);
    rc4.apply(&mut svk);
    out[8..12].copy_from_slice(&rvk);
    out[12..16].copy_from_slice(&svk);

    let mut pl = plain.to_vec();
    rc4.apply(&mut pl);
    out[crypt_header_len..].copy_from_slice(&pl);

    let dec = decrypt_kad_packet(&out, b_kad, secret, from_hash).unwrap();
    assert!(dec.was_obfuscated);
    assert_eq!(dec.payload, plain);
}

#[test]
fn decrypt_passes_plain_packets_through() {
    let me = KadId([1u8; 16]);
    let short = [0x99u8, 1, 2, 3];
    let d = decrypt_kad_packet(&short, me, 1, 2).unwrap();
    assert!(!d.was_obfuscated);
    assert_eq!(d.payload, short);
    let plain = [OP_KADEMLIAHEADER, 1, 2, 3, 4, 5, 6, 7, 8, 9, 10];
    let d = decrypt_kad_packet(&plain, me, 1, 2).unwrap();
    assert!(!d.was_obfuscated);
    assert_eq!(d.payload, plain);
    assert_eq!(d.receiver_verify_key, 0);
}

#[test]
fn decrypt_rejects_garbage() {
    let me = KadId([1u8; 16]);
    let short = [0x98u8, 1, 2, 3, 4, 5, 6, 7, 8, 9];
    match decrypt_kad_packet(&short, me, 1, 2) {
        Err(UdpCryptoError::InvalidPacket(m)) => assert_eq!(m, "obfuscated packet too short"),
        other => panic!("unexpected {:?}", other),
    }
    let junk = [0x98u8; 40];
    match decrypt_kad_packet(&junk, me, 1, 2) {
        Err(UdpCryptoError::InvalidPacket(m)) => assert_eq!(m, "magic mismatch"),
        other => panic!("unexpected {:?}", other),
    }
}

#[test]
fn decrypt_reports_missing_verify_keys() {
    // Seal by hand with a padding length that runs past the end.
    let me = KadId([4u8; 16]);
    let rk = [1u8, 2];
    let mut key_data = me.to_crypt_bytes().to_vec();
    key_data.extend_from_slice(&rk);
    let key = md5(&key_data);
    let mut body = MAGICVALUE_UDP_SYNC_CLIENT.to_le_bytes().to_vec();
    body.push(200);
    body.extend_from_slice(&[0u8; 11]);
    let mut rc4 = Rc4::new(&key);
    rc4.apply(&mut body);
    let mut buf = vec![0x10u8, rk[0], rk[1]];
    buf.extend_from_slice(&body);
    match decrypt_kad_packet(&buf, me, 0, 0) {
        Err(UdpCryptoError::InvalidPacket(m)) => {
            // The node-id key opened the magic but not the keys; the receiver key then fails.
            assert!(m == "magic mismatch" || m == "missing verify keys");
        }
        other => panic!("unexpected {:?}", other),
    }
}

#[test]
fn seal_layout_matches_manual_construction() {
    let key = md5(b"seal");
    let out = seal_kad_packet(&[9, 8, 7], &key, 0x10, &[0xAB, 0xCD], 5, 6);
    assert_eq!(out.len(), 19);
    assert_eq!(out[0], 0x10);
    assert_eq!(&out[1..3], &[0xAB, 0xCD]);
    let mut body = out[3..].to_vec();
    let mut rc4 = Rc4::new(&key);
    rc4.apply(&mut body);
    assert_eq!(&body[0..4], &MAGICVALUE_UDP_SYNC_CLIENT.to_le_bytes());
    assert_eq!(body[4], 0);
    assert_eq!(&body[5..9], &5u32.to_le_bytes());
    assert_eq!(&body[9..13], &6u32.to_le_bytes());
    assert_eq!(&body[13..], &[9, 8, 7]);
}

#[test]
fn udp_verify_key_is_in_range_and_deterministic() {
    let a = udp_verify_key(0xDEADBEEF, 0x11223344);
    let b = udp_verify_key(0xDEADBEEF, 0x11223344);
    assert_eq!(a, b);
    assert!(a >= 1 && a <= 0xFFFF_FFFE);
    assert_ne!(udp_verify_key(1, 2), udp_verify_key(2, 1));
    // Exact value from MD5(target_le || secret_le).
    let mut buf = Vec::new();
    buf.extend_from_slice(&0x11223344u32.to_le_bytes());
    buf.extend_from_slice(&0xDEADBEEFu32.to_le_bytes());
    let h = md5(&buf);
    let w = |i: usize| u32::from_le_bytes([h[i], h[i + 1], h[i + 2], h[i + 3]]);
    assert_eq!(a, ((w(0) ^ w(4) ^ w(8) ^ w(12)) % 0xFFFF_FFFE) + 1);
}

#[test]
fn markers_avoid_plain_headers() {
    assert_eq!(marker_from_byte(0x05, false), None);
    assert_eq!(marker_from_byte(0x04, false), None);
    assert_eq!(marker_from_byte(0x10, false), Some(0x10));
    assert_eq!(marker_from_byte(0x11, true), Some(0x12));
    assert_eq!(marker_from_byte(0xA1, false), Some(0xA0));
    assert_eq!(marker_from_byte(0xB3, true), None);
    assert_eq!(marker_from_byte(0xA3, true), Some(0xA2));
    for _ in 0..32 {
        let m = choose_semi_random_marker(true).unwrap();
        assert_eq!(m & 0x03, 0x02);
        let m = choose_semi_random_marker(false).unwrap();
        assert_eq!(m & 0x03, 0x00);
    }
}
