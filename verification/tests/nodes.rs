use rust_mule::i2p::b64::encode as b64_encode;
use rust_mule::nodes::detect::{nodes_dat_version, DetectError, NodesDatVersion};
use rust_mule::nodes::imule::{encode_nodes_dat_v2, parse_nodes_dat, ImuleNode, NodesDatError};
use rust_mule::nodes::parse::{
    is_routable_public_ipv4, parse_ip_heuristic, parse_kad_nodes_dat, parse_v2_contact,
    KadNodesDatError,
};

#[test]
fn parses_v2_header_and_one_contact() {
    let mut b = Vec::new();
    b.extend_from_slice(&0u32.to_le_bytes());
    b.extend_from_slice(&2u32.to_le_bytes());
    b.extend_from_slice(&1u32.to_le_bytes());

    b.push(8);

    for _ in 0..4 {
        b.extend_from_slice(&0x11223344u32.to_le_bytes());
    }

    b.extend_from_slice(&[0xAA; 387]);
    b.extend_from_slice(&0xAABBCCDDu32.to_le_bytes());
    b.extend_from_slice(&0x01020304u32.to_le_bytes());
    b.push(1);

    let nodes = parse_nodes_dat(&b).unwrap();
    assert_eq!(nodes.len(), 1);
    assert_eq!(nodes[0].kad_version, 8);
    assert_eq!(nodes[0].udp_key, 0xAABBCCDD);
    assert_eq!(nodes[0].udp_key_ip, 0x01020304);
    assert!(nodes[0].verified);
    assert_eq!(nodes[0].client_id, [0x11, 0x22, 0x33, 0x44, 0x11, 0x22, 0x33, 0x44, 0x11, 0x22, 0x33, 0x44, 0x11, 0x22, 0x33, 0x44]);
}

fn sample_node(seed: u8) -> ImuleNode {
    let mut dest = [0u8; 387];
    for (i, b) in dest.iter_mut().enumerate() {
        *b = (i as u8).wrapping_mul(3).wrapping_add(seed);
    }
    let mut id = [0u8; 16];
    for (i, b) in id.iter_mut().enumerate() {
        *b = (i as u8) ^ seed;
    }
    ImuleNode {
        kad_version: seed,
        client_id: id,
        udp_dest: dest,
        udp_key: 0x1000 + seed as u32,
        udp_key_ip: 0x2000 + seed as u32,
        verified: seed % 2 == 0,
    }
}

#[test]
fn nodes_dat_v2_round_trip() {
    let nodes = vec![sample_node(1), sample_node(2), sample_node(7)];
    let bytes = encode_nodes_dat_v2(&nodes).unwrap();
    assert_eq!(bytes.len(), 12 + 3 * 413);
    assert_eq!(&bytes[0..12], &[0, 0, 0, 0, 2, 0, 0, 0, 3, 0, 0, 0]);
    let back = parse_nodes_dat(&bytes).unwrap();
    assert_eq!(back.len(), 3);
    for (a, b) in nodes.iter().zip(back.iter()) {
        assert_eq!(a.kad_version, b.kad_version);
        assert_eq!(a.client_id, b.client_id);
        assert_eq!(a.udp_dest.to_vec(), b.udp_dest.to_vec());
        assert_eq!(a.udp_key, b.udp_key);
        assert_eq!(a.udp_key_ip, b.udp_key_ip);
        assert_eq!(a.verified, b.verified);
    }
}

#[test]
fn nodes_dat_bootstrap_and_errors() {
    let mut b = Vec::new();
    b.extend_from_slice(&1u32.to_le_bytes());
    b.push(5);
    b.extend_from_slice(&[0u8; 16]);
    b.extend_from_slice(&[0x42; 387]);
    let nodes = parse_nodes_dat(&b).unwrap();
    assert_eq!(nodes.len(), 1);
    assert_eq!(nodes[0].kad_version, 5);
    assert_eq!(nodes[0].udp_key, 0);
    assert!(!nodes[0].verified);

    assert_eq!(parse_nodes_dat(&[1, 2]).unwrap_err(), NodesDatError::TooSmall { len: 2 });
    assert_eq!(
        parse_nodes_dat(&[0, 0, 0, 0, 3, 0, 0, 0, 0, 0, 0, 0]).unwrap_err(),
        NodesDatError::UnsupportedVersion { version: 3 }
    );
    let e = parse_nodes_dat(&[0, 0, 0, 0, 2, 0, 0, 0, 1, 0, 0, 0]).unwrap_err();
    assert_eq!(e, NodesDatError::Truncated { needed: 425, count: 1, len: 12 });
    assert_eq!(e.to_string(), "nodes.dat truncated: expected at least 425 bytes for 1 entries, got 12");
    assert_eq!(parse_nodes_dat(&[0, 0, 0, 0, 2]).unwrap_err(), NodesDatError::HeaderTooSmall { len: 5 });
    let e = parse_nodes_dat(&[2, 0, 0, 0, 1]).unwrap_err();
    assert_eq!(e, NodesDatError::BootstrapTruncated { needed: 812, count: 2, len: 5 });
}

#[test]
fn dest_hash_code_and_b64() {
    let n = sample_node(0);
    assert_eq!(n.udp_dest_hash_code(), u32::from_le_bytes([n.udp_dest[0], n.udp_dest[1], n.udp_dest[2], n.udp_dest[3]]));
    let s = n.udp_dest_b64();
    assert_eq!(s.len(), 516);
    assert!(s.chars().all(|c| c.is_ascii_alphanumeric() || c == '-' || c == '~'));
}

#[test]
fn i2p_base64_vectors() {
    assert_eq!(b64_encode(b""), "");
    assert_eq!(b64_encode(b"f"), "Zg==");
    assert_eq!(b64_encode(b"fo"), "Zm8=");
    assert_eq!(b64_encode(b"foo"), "Zm9v");
    assert_eq!(b64_encode(b"foobar"), "Zm9vYmFy");
    assert_eq!(b64_encode(&[0xFB, 0xFF, 0xBF]), "-~-~");
}

#[test]
fn detects_nodes_dat_versions() {
    let (v, count, expected, header) = nodes_dat_version(&[0, 0, 0, 0, 2, 0, 0, 0, 3, 0, 0, 0]).unwrap();
    assert!(matches!(v, NodesDatVersion::V2));
    assert_eq!((count, expected, header), (3, 12 + 3 * 34, 12));
    let (v, count, expected, header) = nodes_dat_version(&[2, 0, 0, 0]).unwrap();
    assert!(matches!(v, NodesDatVersion::V0));
    assert_eq!((count, expected, header), (2, 4 + 2 * 25, 4));
    assert_eq!(nodes_dat_version(&[0, 0]).unwrap_err(), DetectError::FileTooSmall);
    assert_eq!(nodes_dat_version(&[0, 0, 0, 0, 1]).unwrap_err(), DetectError::V2HeaderTooSmall);
    let e = nodes_dat_version(&[0, 0, 0, 0, 1, 0, 0, 0, 0, 0, 0, 0]).unwrap_err();
    assert_eq!(e.to_string(), "unsupported nodes.dat version: 1");
}

#[test]
fn ipv4_routability() {
    assert!(!is_routable_public_ipv4([10, 1, 2, 3]));
    assert!(!is_routable_public_ipv4([127, 0, 0, 1]));
    assert!(!is_routable_public_ipv4([172, 16, 0, 1]));
    assert!(is_routable_public_ipv4([172, 32, 0, 1]));
    assert!(!is_routable_public_ipv4([192, 168, 1, 1]));
    assert!(!is_routable_public_ipv4([169, 254, 1, 1]));
    assert!(!is_routable_public_ipv4([224, 0, 0, 1]));
    assert!(!is_routable_public_ipv4([0, 1, 2, 3]));
    assert!(is_routable_public_ipv4([8, 8, 8, 8]));
    assert_eq!(parse_ip_heuristic(&[0, 0, 0, 8]), [8, 0, 0, 0]);
    assert_eq!(parse_ip_heuristic(&[1, 0, 0, 10]), [1, 0, 0, 10]);
    assert_eq!(parse_ip_heuristic(&[8, 8, 4, 4]), [8, 8, 4, 4]);
    assert_eq!(parse_ip_heuristic(&[10, 0, 0, 127]), [10, 0, 0, 127]);
}

#[test]
fn parses_kad_v2_contacts() {
    let mut b = Vec::new();
    b.extend_from_slice(&0u32.to_le_bytes());
    b.extend_from_slice(&2u32.to_le_bytes());
    b.extend_from_slice(&1u32.to_le_bytes());
    let mut entry = [0u8; 34];
    entry[0] = 10;
    entry[1] = 0;
    entry[2] = 0;
    entry[3] = 1;
    entry[20..22].copy_from_slice(&4672u16.to_le_bytes());
    entry[22..24].copy_from_slice(&4662u16.to_le_bytes());
    entry[24] = 8;
    entry[25..33].copy_from_slice(&0x0102030405060708u64.to_le_bytes());
    entry[33] = 1;
    b.extend_from_slice(&entry);
    let nodes = parse_kad_nodes_dat(&b).unwrap();
    assert_eq!(nodes.len(), 1);
    assert_eq!(nodes[0].ip, [1, 0, 0, 10]);
    assert_eq!(nodes[0].udp_port, 4672);
    assert_eq!(nodes[0].tcp_port, 4662);
    assert_eq!(nodes[0].kad_version, 8);
    assert_eq!(nodes[0].kad_udp_key, 0x0102030405060708);
    assert!(nodes[0].verified);
    assert_eq!(parse_v2_contact(&entry).node_id[0], 10);
    let e = parse_kad_nodes_dat(&[1, 0, 0, 0, 2, 0, 0, 0, 0, 0, 0, 0]).unwrap_err();
    assert_eq!(e, KadNodesDatError::BadMagic { magic: 1 });
    assert_eq!(e.to_string(), "unexpected nodes.dat header (magic=1); expected v2 (magic=0)");
}
