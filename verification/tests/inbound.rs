use rust_mule::i2p::b64::encode;
use rust_mule::kad::routing::RoutingTable;
use rust_mule::kad::service::inbound::{
    answer_bootstrap_req, answer_hello_req_deprecated, answer_kad2_req, answer_ping, receive_inbound, seal_reply,
    InboundPacket, InboundVerdict,
};
use rust_mule::kad::service::requests::{InboundLimiter, OutRequestTracker};
use rust_mule::kad::service::KadServiceCrypto;
use rust_mule::kad::KadId;
use rust_mule::nodes::imule::ImuleNode;

const NOW: u64 = 1_000_000_000_000;

fn crypto() -> KadServiceCrypto {
    KadServiceCrypto { my_kad_id: KadId([0x11; 16]), my_dest_hash: 5, udp_key_secret: 77, my_dest: [0xAB; 387] }
}

fn parts() -> (RoutingTable, InboundLimiter, OutRequestTracker) {
    (RoutingTable::new(KadId([0x11; 16])), InboundLimiter::new(NOW), OutRequestTracker::new())
}

fn packet(opcode: u8, payload: Vec<u8>) -> InboundPacket {
    InboundPacket {
        from_hash: 0,
        was_obfuscated: false,
        sender_verify_key: 0,
        receiver_verify_key: 0,
        valid_receiver_key: false,
        opcode,
        payload,
    }
}

#[test]
fn plain_ping_is_accepted() {
    let (mut rt, mut lim, mut tr) = parts();
    match receive_inbound(&mut rt, &mut lim, &mut tr, "peer", &[0x05, 0x1E], &crypto(), NOW) {
        InboundVerdict::Accepted(p) => {
            assert_eq!(p.opcode, 0x1E);
            assert!(p.payload.is_empty());
            assert!(!p.was_obfuscated);
            assert!(!p.valid_receiver_key);
            assert_eq!(p.from_hash, 0);
        }
        other => panic!("unexpected {other:?}"),
    }
}

#[test]
fn garbage_is_dropped_at_the_right_stage() {
    let (mut rt, mut lim, mut tr) = parts();
    let c = crypto();
    assert!(matches!(
        receive_inbound(&mut rt, &mut lim, &mut tr, "peer", &[0x07, 1, 2], &c, NOW),
        InboundVerdict::Unparsable
    ));
    assert!(matches!(
        receive_inbound(&mut rt, &mut lim, &mut tr, "peer", &[0x99; 40], &c, NOW),
        InboundVerdict::Undecipherable
    ));
    assert!(matches!(
        receive_inbound(&mut rt, &mut lim, &mut tr, "peer", &[0x05, 0x13, 0, 0], &c, NOW),
        InboundVerdict::Unrequested
    ));
}

#[test]
fn answers_carry_the_expected_opcodes() {
    let (mut rt, _, _) = parts();
    let c = crypto();
    assert_eq!(answer_ping(&mut rt, "peer", NOW), vec![0x05, 0x1F]);
    let hello = answer_hello_req_deprecated(&c);
    assert_eq!(hello.len(), 2 + 16 + 387 * 2 + 1);
    assert_eq!(&hello[..2], &[0x05, 0x04]);
    assert_eq!(*hello.last().unwrap(), 3);
    let boot = answer_bootstrap_req(&mut rt, "peer", 0, &c, NOW);
    assert_eq!(&boot[..2], &[0x05, 0x0E]);
}

#[test]
fn kad2_req_answered_only_when_addressed_to_us() {
    let (mut rt, _, _) = parts();
    let c = crypto();
    let other = ImuleNode { kad_version: 8, client_id: [0x22; 16], udp_dest: [0x22; 387], udp_key: 0, udp_key_ip: 0, verified: true };
    let _ = rt.upsert(other, NOW);
    let mut req = vec![2u8];
    req.extend_from_slice(&[0x20; 16]);
    req.extend_from_slice(&[0x11; 16]);
    let out = answer_kad2_req(&mut rt, "peer", &packet(0x11, req.clone()), &c, NOW).expect("answered");
    assert_eq!(&out[..2], &[0x05, 0x13]);
    assert_eq!(&out[2..18], &KadId([0x20; 16]).to_crypt_bytes());
    assert_eq!(out[18], 1);

    let mut wrong = req.clone();
    wrong[17] = 0x12;
    assert!(answer_kad2_req(&mut rt, "peer", &packet(0x11, wrong), &c, NOW).is_none());

    let mut with_sender = req.clone();
    with_sender.extend_from_slice(&[0x33; 16]);
    let dest = encode(&[0x33; 387]);
    let _ = answer_kad2_req(&mut rt, &dest, &packet(0x11, with_sender), &c, NOW).expect("answered");
    assert!(rt.contains_id(KadId([0x33; 16])));
}

#[test]
fn plain_requests_get_plain_replies() {
    let c = crypto();
    let p = packet(0x1E, vec![]);
    assert_eq!(seal_reply(vec![0x05, 0x1F], &p, &c).unwrap(), vec![0x05, 0x1F]);
    let mut q = packet(0x1E, vec![]);
    q.was_obfuscated = true;
    q.sender_verify_key = 9;
    assert_eq!(seal_reply(vec![0x05, 0x1F], &q, &c).unwrap().len(), 18);
}
