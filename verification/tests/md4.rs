use rust_mule::kad::md4::{digest, Md4};
use std::io::Read;

fn hex(bytes: &[u8]) -> String {
    let mut s = String::new();
    for b in bytes {
        s.push_str(&format!("{:02x}", b));
    }
    s
}

#[test]
fn md4_test_vectors() {
    assert_eq!(hex(&digest(b"")), "31d6cfe0d16ae931b73c59d7e0c089c0");
    assert_eq!(hex(&digest(b"a")), "bde52cb31de33e46245e05fbdbd6fb24");
    assert_eq!(hex(&digest(b"abc")), "a448017aaf21d8525fc10ae87aa6729d");
    assert_eq!(
        hex(&digest(b"message digest")),
        "d9130a8164549fe818874806e1c7014b"
    );
    assert_eq!(
        hex(&digest(b"abcdefghijklmnopqrstuvwxyz")),
        "d79e1c308aa5bbcdeea8ed63df412da9"
    );
    assert_eq!(
        hex(&digest(
            b"ABCDEFGHIJKLMNOPQRSTUVWXYZabcdefghijklmnopqrstuvwxyz0123456789"
        )),
        "043f8582f241db351ce627e153e7f0e4"
    );
    assert_eq!(
        hex(&digest(
            b"12345678901234567890123456789012345678901234567890123456789012345678901234567890"
        )),
        "e33b4ddc9c38f2199c3e7b164fcc0536"
    );
}

/// Feeds a reader through the streaming hasher in fixed-size chunks.
fn digest_stream<R: Read>(reader: &mut R) -> [u8; 16] {
    let mut md4 = Md4::new();
    let mut buf = [0u8; 8192];
    loop {
        let read = reader.read(&mut buf).unwrap();
        if read == 0 {
            break;
        }
        md4.update(&buf[..read]);
    }
    md4.finalize()
}

#[test]
fn md4_digest_reader_matches_digest() {
    let input = b"streamed md4 input".repeat(4096);
    let mut reader = std::io::Cursor::new(input.clone());
    assert_eq!(digest(&input), digest_stream(&mut reader));
}

#[test]
fn md4_uneven_updates_match_one_shot() {
    let input: Vec<u8> = (0..1000u32).map(|i| (i * 7 % 251) as u8).collect();
    let mut h = Md4::default();
    h.update(&input[..1]);
    h.update(&input[1..63]);
    h.update(&input[63..64]);
    h.update(&input[64..200]);
    h.update(&[]);
    h.update(&input[200..]);
    assert_eq!(h.finalize(), digest(&input));
}

#[test]
fn md4_block_boundary_lengths() {
    // 55, 56 and 64 bytes exercise the padding edge cases.
    assert_eq!(hex(&digest(&[b'a'; 55])).len(), 32);
    assert_ne!(digest(&[b'a'; 55]), digest(&[b'a'; 56]));
    assert_ne!(digest(&[b'a'; 56]), digest(&[b'a'; 64]));
}
