use rust_mule::kad::packed::{adler32, inflate_zlib, InflateError};

fn hex_to_bytes(s: &str) -> Vec<u8> {
    assert!(s.len() % 2 == 0);
    let mut out = Vec::with_capacity(s.len() / 2);
    for i in (0..s.len()).step_by(2) {
        out.push(u8::from_str_radix(&s[i..i + 2], 16).unwrap());
    }
    out
}

#[test]
fn inflates_known_zlib_stream_hello() {
    let hex = "789ccb48cdc9c90700062c0215";
    let src = hex_to_bytes(hex);
    let out = inflate_zlib(&src, 1024).unwrap();
    assert_eq!(out, b"hello");
}

#[test]
fn rejects_bad_adler() {
    let mut src = hex_to_bytes("789ccb48cdc9c90700062c0215");
    *src.last_mut().unwrap() ^= 0xFF;
    let err = inflate_zlib(&src, 1024).unwrap_err();
    assert!(err.to_string().to_lowercase().contains("adler32"));
}

#[test]
fn inflates_stored_block() {
    // zlib header, final stored block "abc", adler32("abc")
    let mut src = vec![0x78, 0x01, 0x01, 0x03, 0x00, 0xFC, 0xFF, b'a', b'b', b'c'];
    src.extend_from_slice(&adler32(b"abc").to_be_bytes());
    assert_eq!(inflate_zlib(&src, 16).unwrap(), b"abc");
    assert_eq!(inflate_zlib(&src, 2).unwrap_err(), InflateError::OutputLimit);
}

#[test]
fn inflates_fixed_huffman_stream() {
    // zlib.compress(b"abcabcabcabcabcabcabcabc" * 4, 9)
    let src = hex_to_bytes("78da4b4c4a4ea4250200f6da24c1");
    let out = inflate_zlib(&src, 4096).unwrap();
    assert_eq!(out, b"abcabcabcabcabcabcabcabc".repeat(4));
}

#[test]
fn inflates_dynamic_huffman_stream() {
    // 200 random words out of eight, compressed at level 9 (dynamic Huffman block)
    let src = hex_to_bytes("78da7553d10e833008fc157fad648d2ea99bc9fac4d79b89c81dd5076b69e1e00e3a97752d93d45ea6bafddeedfb31a32f79fd7fafda7a4187d2b6c5aec23add4f3408d1f019d7800f2fb3b1083bd1d8a28ba70cc023ed7c502476ca84fcceff411819457581aa171a888259fd1ae522e93cf51562ab25431922bd26d4913762e4bcca5ce030f568a8db82b04a19d3cba5c03359565d929c37e7dc42b6b8699ac756eeb57e9800194737f3cf2a9b6dfbfc527070224e79ba9816396355545a92a267147c59580adea6f7243c1718255e306b0d6332ce01b2d1dc61c7df01ea22a117");
    let out = inflate_zlib(&src, 4096).unwrap();
    assert_eq!(out.len(), 1150);
    assert!(out.starts_with(b"gamma beta epsilon beta theta theta theta eta delta beta the"));
    assert_eq!(adler32(&out), 0xea22a117);
    assert_eq!(inflate_zlib(&src, 1000).unwrap_err(), InflateError::OutputLimit);
}

#[test]
fn rejects_bad_headers() {
    assert_eq!(inflate_zlib(&[0x78, 0x9c], 10).unwrap_err(), InflateError::TooSmall);
    assert_eq!(inflate_zlib(&[0x77, 0x9c, 0, 0, 0, 0], 10).unwrap_err(), InflateError::UnsupportedMethod);
    assert_eq!(inflate_zlib(&[0x78, 0x9d, 0, 0, 0, 0], 10).unwrap_err(), InflateError::BadHeaderCheck);
    assert_eq!(inflate_zlib(&[0x78, 0xbb, 0, 0, 0, 0], 10).unwrap_err(), InflateError::PresetDictionary);
    assert_eq!(inflate_zlib(&[0x78, 0x9c, 0x07, 0, 0, 0, 0], 10).unwrap_err(), InflateError::InvalidBlockType);
}

#[test]
fn adler32_known_values() {
    assert_eq!(adler32(b""), 1);
    assert_eq!(adler32(b"Wikipedia"), 0x11E60398);
}

#[test]
fn inflate_output_limit_is_exact_for_hello() {
    let src = hex_to_bytes("789ccb48cdc9c90700062c0215");
    assert_eq!(inflate_zlib(&src, 4).unwrap_err(), InflateError::OutputLimit);
    assert_eq!(inflate_zlib(&src, 5).unwrap(), b"hello".to_vec());
}
