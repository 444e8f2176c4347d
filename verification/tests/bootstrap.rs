use rust_mule::i2p::b64::encode;
use rust_mule::kad::bootstrap::{
    bootstrap_request, initial_bootstrap_peers, BootstrapConfig, BootstrapCrypto, BootstrapError, BootstrapTally,
};
use rust_mule::kad::KadId;
use rust_mule::nodes::imule::ImuleNode;

fn node(id: u8, version: u8, verified: bool) -> ImuleNode {
    ImuleNode {
        kad_version: version,
        client_id: [id; 16],
        udp_dest: [id; 387],
        udp_key: 0,
        udp_key_ip: 0,
        verified,
    }
}

fn crypto() -> BootstrapCrypto {
    BootstrapCrypto { my_kad_id: KadId([0x42; 16]), my_dest_hash: 7, udp_key_secret: 99 }
}

#[test]
fn defaults_are_sixty_four_peers_for_a_minute() {
    let cfg = BootstrapConfig::default();
    assert_eq!(cfg.max_initial, 64);
    assert_eq!(cfg.runtime, 60_000_000_000);
}

#[test]
fn initial_peers_prefer_verified_then_newer() {
    let nodes = vec![node(1, 2, false), node(2, 0, true), node(3, 8, false), node(4, 2, true), node(5, 6, true)];
    let out = initial_bootstrap_peers(&nodes, 3).expect("peers");
    assert_eq!(out.iter().map(|n| n.client_id[0]).collect::<Vec<_>>(), vec![5, 4, 3]);
    let err = initial_bootstrap_peers(&[node(2, 0, true)], 3).expect_err("none");
    assert_eq!(err, BootstrapError::NoNodes);
    assert_eq!(err.to_string(), "no bootstrap nodes provided");
    assert!(initial_bootstrap_peers(&nodes, 0).is_err());
}

#[test]
fn request_goes_to_the_node_destination() {
    let n = node(9, 8, true);
    let (dest, packet) = bootstrap_request(&n, &crypto()).expect("sealed");
    assert_eq!(dest, encode(&[9u8; 387]));
    assert_eq!(packet.len(), 18);
}

#[test]
fn tally_counts_pongs_once_and_drops_garbage() {
    let mut t = BootstrapTally::new();
    let c = crypto();
    t.on_datagram("peerA", &[0x05, 0x1F], &c);
    t.on_datagram("peerA", &[0x05, 0x1F], &c);
    t.on_datagram("peerB", &[0x05, 0x1F], &c);
    t.on_datagram("peerC", &[0x07, 0x00], &c);
    t.on_datagram("peerC", &[0x05], &c);
    let (received, dropped, decrypted, pongs, responders, contacts) = t.summary();
    assert_eq!(received, 5);
    assert_eq!(dropped, 2);
    assert_eq!(decrypted, 0);
    assert_eq!(pongs, 2);
    assert_eq!(responders, 0);
    assert_eq!(contacts, 0);
}

#[test]
fn tally_counts_bootstrap_contacts() {
    let mut payload = vec![0u8; 404];
    payload.extend_from_slice(&[1, 0]);
    payload.extend_from_slice(&[0u8; 404]);
    let mut t = BootstrapTally::new();
    t.record_packet("peerA", 0x0E, &payload);
    t.record_packet("peerA", 0x0E, &payload[..10]);
    let (_, _, _, _, responders, contacts) = t.summary();
    assert_eq!(responders, 1);
    assert_eq!(contacts, 1);
}
