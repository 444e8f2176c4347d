use rust_mule::i2p::b64::{decode, dest_hash_code, encode};

#[test]
fn decode_inverts_encode() {
    for data in [&b""[..], b"a", b"ab", b"abc", b"abcd", &[0xffu8, 0xfe, 0xfd, 0x00, 0x01][..]] {
        let s = encode(data);
        assert_eq!(decode(&s).as_deref(), Some(data));
    }
    assert_eq!(encode(&[0xfb, 0xff]), "-~8=");
    assert_eq!(decode("-~8="), Some(vec![0xfb, 0xff]));
}

#[test]
fn decode_refuses_what_encode_never_gives() {
    assert_eq!(decode("QQ="), None);
    assert_eq!(decode("QR=="), None);
    assert_eq!(decode("Q+=="), None);
    assert_eq!(decode("QQ==QQ=="), None);
    assert_eq!(decode("QQ=="), Some(vec![0x41]));
}

#[test]
fn destination_hash_is_first_four_bytes_le() {
    let dest = [7u8, 1, 0, 0, 9, 9];
    assert_eq!(dest_hash_code(&encode(&dest)), 0x0107);
    assert_eq!(dest_hash_code(&encode(&[1, 2, 3])), 0);
    assert_eq!(dest_hash_code("not base64!"), 0);
}
