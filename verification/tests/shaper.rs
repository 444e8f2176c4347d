use rust_mule::kad::service::policy::OutboundClass;
use rust_mule::kad::service::shaper::{scaled_cap_or_disabled, shaper_policy, OutboundShaper, ShaperSettings};

const MS: u64 = 1_000_000;
const SEC: u64 = 1_000_000_000;

fn settings() -> ShaperSettings {
    ShaperSettings {
        base_delay_ms: 40,
        jitter_ms: 10,
        global_min_interval_ms: 20,
        peer_min_interval_ms: 100,
        global_max_per_sec: 2,
        peer_max_per_sec: 1,
    }
}

#[test]
fn class_policies_follow_the_query_settings() {
    let s = settings();
    let q = shaper_policy(&s, OutboundClass::Query);
    assert_eq!(q.base_delay_ms, 40);
    assert!(q.drop_when_delayed);
    let h = shaper_policy(&s, OutboundClass::Hello);
    assert_eq!(h.base_delay_ms, 20);
    assert_eq!(h.peer_min_interval_ms, 50);
    assert_eq!(h.global_min_interval_ms, 20);
    assert_eq!(h.global_max_per_sec, 32);
    assert_eq!(h.peer_max_per_sec, 8);
    let b = shaper_policy(&s, OutboundClass::Bootstrap);
    assert_eq!(b.global_min_interval_ms, 10);
    let r = shaper_policy(&s, OutboundClass::Response);
    assert_eq!(r.base_delay_ms, 0);
    assert_eq!(r.global_max_per_sec, 128);
    assert_eq!(r.peer_max_per_sec, 24);
    assert!(!r.drop_when_delayed);
    assert_eq!(scaled_cap_or_disabled(0, 4, 128), 0);
    assert_eq!(scaled_cap_or_disabled(100, 4, 128), 400);
    assert_eq!(scaled_cap_or_disabled(u32::MAX, 2, 8), u32::MAX);
}

#[test]
fn caps_hold_within_a_window_and_reset_after_it() {
    let s = settings();
    let mut sh = OutboundShaper::new(0, 7);
    let t0 = 10 * SEC;
    assert_eq!(sh.schedule_send(&s, OutboundClass::Query, "a", t0), Some(t0));
    sh.mark_sent(OutboundClass::Query, "a", t0);
    assert_eq!(sh.schedule_send(&s, OutboundClass::Query, "a", t0), None);
    assert_eq!(sh.schedule_send(&s, OutboundClass::Query, "b", t0), Some(t0 + 20 * MS));
    sh.mark_sent(OutboundClass::Query, "b", t0 + 20 * MS);
    assert_eq!(sh.schedule_send(&s, OutboundClass::Query, "c", t0 + 30 * MS), None);
    let later = t0 + 2 * SEC;
    assert_eq!(sh.schedule_send(&s, OutboundClass::Query, "a", later), Some(later));
}

#[test]
fn responses_respect_only_their_caps() {
    let s = settings();
    let mut sh = OutboundShaper::new(0, 7);
    let t0 = 5 * SEC;
    for _ in 0..24 {
        assert_eq!(sh.schedule_send(&s, OutboundClass::Response, "p", t0), Some(t0));
        sh.mark_sent(OutboundClass::Response, "p", t0);
    }
    assert_eq!(sh.schedule_send(&s, OutboundClass::Response, "p", t0), None);
}
