use rust_mule::kad::udp_key::{new_udp_key_secret, stored_udp_key_secret, UdpKeyError};

#[test]
fn stored_secret_needs_four_bytes() {
    let err = stored_udp_key_secret(&[1, 2, 3], "data/kad_udp_key").expect_err("short");
    assert!(matches!(err, UdpKeyError::WrongSize { len: 3, .. }));
    assert_eq!(
        err.to_string(),
        "kad udp key secret file has wrong size: 3 bytes (expected 4): data/kad_udp_key"
    );
    assert_eq!(stored_udp_key_secret(&[1, 0, 0, 0], "p").unwrap(), Some(1));
    assert_eq!(stored_udp_key_secret(&[0, 0, 0, 0], "p").unwrap(), None);
}

#[test]
fn fresh_secret_is_never_zero() {
    assert_ne!(new_udp_key_secret().expect("random"), 0);
}
