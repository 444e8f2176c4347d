use rust_mule::logging::{redact_b64, redact_hex, WarnThrottle};

#[test]
fn redact_hex_keeps_eight_bytes_each_side() {
    assert_eq!(redact_hex("0123456789abcdef0123"), "01234567..cdef0123");
    assert_eq!(redact_hex("0123456789abcdef"), "0123456789abcdef");
    assert_eq!(redact_hex(""), "");
}

#[test]
fn redact_b64_keeps_six_bytes_each_side() {
    assert_eq!(redact_b64("abcdefghijklm"), "abcdef..hijklm");
    assert_eq!(redact_b64("abcdefghijkl"), "abcdefghijkl");
    assert_eq!(redact_b64("ééééééé"), "ééé..ééé");
}

#[test]
fn throttle_passes_first_then_counts_held_back() {
    let sec = 1_000_000_000u64;
    let mut t = WarnThrottle::new();
    assert_eq!(t.warn_throttled_with_count("k", 0, 10 * sec), Some(0));
    assert_eq!(t.warn_throttled_with_count("k", 5 * sec, 10 * sec), None);
    assert_eq!(t.warn_throttled_with_count("k", 6 * sec, 10 * sec), None);
    assert_eq!(t.warn_throttled_with_count("k", 20 * sec, 10 * sec), Some(2));
    assert_eq!(t.warn_throttled_with_count("j", 20 * sec, 10 * sec), Some(0));
    assert!(!t.warn_throttled("k", 25 * sec, 10 * sec));
    assert!(t.warn_throttled("k", 30 * sec, 10 * sec));
}
