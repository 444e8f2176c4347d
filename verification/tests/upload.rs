use rust_mule::upload::{
    zero_fill_block, UploadActivitySnapshot, UploadActivityTracker, UploadPayloadSource,
    UploadRangePhase, UploadTerminalReason,
};

const SEC: u64 = 1_000_000_000;
const MS: u64 = 1_000_000;

#[test]
fn tracker_updates_range_phase_and_totals() {
    let mut tracker = UploadActivityTracker::default();
    let ttl = 5 * SEC;

    tracker.note_held("abcd", "peer-a", 0, 1023, ttl);
    let held = tracker.snapshot_for_hash("abcd");
    assert_eq!(held.total_requests, 1);
    assert_eq!(held.requested_bytes_total, 1024);
    assert_eq!(held.rate_bps_5s, 0);
    assert_eq!(held.rate_bps_30s, 0);
    assert_eq!(held.zero_fill_rate_bps_5s, 0);
    assert_eq!(held.zero_fill_rate_bps_30s, 0);
    assert_eq!(held.zero_fill_requests_total, 0);
    assert!(!held.zero_fill_active);
    assert_eq!(held.active_ranges.len(), 1);
    assert_eq!(held.sessions.len(), 1);
    let session_id = held.sessions[0].session_id;
    assert_eq!(held.active_ranges[0].phase, UploadRangePhase::Held);
    assert_eq!(held.active_ranges[0].peer_id_hex, "peer-a");
    assert_eq!(held.active_peer_ids, vec!["peer-a".to_string()]);
    let active_since = held.active_since_unix_secs;
    assert!(active_since.is_some());

    tracker.note_sending("abcd", "peer-a", 0, 1023, ttl, UploadPayloadSource::SharedFile);
    let sending = tracker.snapshot_for_hash("ABCD");
    assert_eq!(sending.total_requests, 2);
    assert_eq!(sending.requested_bytes_total, 2048);
    assert!(sending.rate_bps_5s > 0);
    assert!(sending.rate_bps_30s > 0);
    assert_eq!(sending.zero_fill_requests_total, 0);
    assert_eq!(sending.zero_fill_requested_bytes_total, 0);
    assert_eq!(sending.zero_fill_rate_bps_5s, 0);
    assert_eq!(sending.zero_fill_rate_bps_30s, 0);
    assert!(!sending.zero_fill_active);
    assert_eq!(sending.active_ranges.len(), 1);
    assert_eq!(sending.sessions.len(), 1);
    assert_eq!(sending.sessions[0].session_id, session_id);
    assert_eq!(sending.sessions[0].phase, UploadRangePhase::Sending);
    assert_eq!(sending.active_ranges[0].phase, UploadRangePhase::Sending);
    assert_eq!(sending.last_peer_id_hex.as_deref(), Some("peer-a"));
    assert_eq!(sending.last_payload_source, Some(UploadPayloadSource::SharedFile));
    assert_eq!(sending.active_since_unix_secs, active_since);
}

#[test]
fn tracker_snapshot_all_includes_hash() {
    let mut tracker = UploadActivityTracker::default();
    tracker.note_held("beef", "peer-b", 0, 63, 5 * SEC);
    let snapshots = tracker.snapshot_all();
    assert_eq!(snapshots.len(), 1);
    assert_eq!(snapshots[0].file_hash_md4_hex, "beef");
    assert_eq!(snapshots[0].active_peer_ids, vec!["peer-b".to_string()]);
    assert_eq!(snapshots[0].sessions.len(), 1);
}

#[test]
fn tracker_allocates_new_session_id_after_expiry() {
    let mut tracker = UploadActivityTracker::default();
    let t0 = 100 * SEC;
    tracker.note_at("fade", "peer-expire", 0, 63, MS, UploadRangePhase::Held, None, t0, Some(1));
    let first = tracker.snapshot_for_hash_at("fade", t0);
    assert_eq!(first.sessions.len(), 1);
    let first_id = first.sessions[0].session_id;
    let t1 = t0 + 5 * MS;
    tracker.note_at("fade", "peer-expire", 0, 63, SEC, UploadRangePhase::Held, None, t1, Some(2));
    let second = tracker.snapshot_for_hash_at("fade", t1);
    assert_eq!(second.sessions.len(), 1);
    assert!(second.sessions[0].session_id > first_id);
}

#[test]
fn tracker_keeps_recent_session_history_after_expiry() {
    let mut tracker = UploadActivityTracker::default();
    let t0 = 100 * SEC;
    tracker.note_at(
        "hist",
        "peer-hist",
        0,
        127,
        MS,
        UploadRangePhase::Sending,
        Some(UploadPayloadSource::SharedFile),
        t0,
        Some(1),
    );
    let snapshot = tracker.snapshot_for_hash_at("hist", t0 + 5 * MS);
    assert_eq!(snapshot.sessions.len(), 0);
    assert_eq!(snapshot.recent_sessions.len(), 1);
    assert_eq!(snapshot.recent_session_count, 1);
    assert_eq!(snapshot.recent_sessions[0].peer_id_hex, "peer-hist");
    assert_eq!(snapshot.recent_sessions[0].terminal_reason, Some(UploadTerminalReason::Expired));
    // the history itself expires after the retention period
    let later = tracker.snapshot_for_hash_at("hist", t0 + 5 * MS + 121 * SEC);
    assert_eq!(later.recent_sessions.len(), 0);
}

#[test]
fn tracker_moves_terminalled_session_to_recent_history() {
    let mut tracker = UploadActivityTracker::default();
    tracker.note_held("drop", "peer-drop", 0, 127, 30 * SEC);
    tracker.note_terminal("drop", "peer-drop", 0, 127, UploadTerminalReason::Dropped);

    let snapshot = tracker.snapshot_for_hash("drop");
    assert_eq!(snapshot.sessions.len(), 0);
    assert_eq!(snapshot.recent_sessions.len(), 1);
    assert_eq!(snapshot.recent_sessions[0].terminal_reason, Some(UploadTerminalReason::Dropped));
}

#[test]
fn tracker_keeps_first_terminal_reason_after_expiry() {
    let mut tracker = UploadActivityTracker::default();
    let t0 = 100 * SEC;
    tracker.note_at("first", "peer-first", 0, 127, MS, UploadRangePhase::Held, None, t0, None);
    let expired = tracker.snapshot_for_hash_at("first", t0 + 5 * MS);
    assert_eq!(expired.sessions.len(), 0);
    assert_eq!(expired.recent_sessions.len(), 1);
    assert_eq!(expired.recent_sessions[0].terminal_reason, Some(UploadTerminalReason::Expired));

    tracker.note_terminal_at("first", "peer-first", 0, 127, UploadTerminalReason::Dropped, t0 + 6 * MS);
    let after_terminal = tracker.snapshot_for_hash_at("first", t0 + 6 * MS);
    assert_eq!(after_terminal.recent_sessions.len(), 1);
    assert_eq!(after_terminal.recent_sessions[0].terminal_reason, Some(UploadTerminalReason::Expired));
}

#[test]
fn tracker_caps_recent_session_history_per_file() {
    let mut tracker = UploadActivityTracker::default();
    let t0 = 100 * SEC;
    for idx in 0..140u64 {
        tracker.note_at(
            "cap",
            &format!("peer-{idx}"),
            idx * 10,
            idx * 10 + 9,
            MS,
            UploadRangePhase::Held,
            None,
            t0,
            None,
        );
    }
    let snapshot = tracker.snapshot_for_hash_at("cap", t0 + 5 * MS);
    assert_eq!(snapshot.sessions.len(), 0);
    assert_eq!(snapshot.recent_session_count, 128);
    assert_eq!(snapshot.recent_sessions.len(), 128);
    assert_eq!(snapshot.recent_sessions[0].peer_id_hex, "peer-12");
}

#[test]
fn tracker_records_zero_fill_fallback_activity() {
    let mut tracker = UploadActivityTracker::default();
    tracker.note_sending("cafe", "peer-z", 0, 511, 5 * SEC, UploadPayloadSource::ZeroFillFallback);
    let snapshot = tracker.snapshot_for_hash("cafe");
    assert_eq!(snapshot.zero_fill_requests_total, 1);
    assert_eq!(snapshot.zero_fill_requested_bytes_total, 512);
    assert!(snapshot.zero_fill_rate_bps_5s > 0);
    assert!(snapshot.zero_fill_rate_bps_30s > 0);
    assert!(snapshot.zero_fill_active);
    assert_eq!(snapshot.last_payload_source, Some(UploadPayloadSource::ZeroFillFallback));
}

#[test]
fn tracker_snapshot_all_orders_and_skips_idle() {
    let mut tracker = UploadActivityTracker::new();
    let t0 = 10 * SEC;
    tracker.note_at("bb", "p2", 0, 9, SEC, UploadRangePhase::Held, None, t0, Some(5));
    tracker.note_at("AA", "p1", 0, 9, SEC, UploadRangePhase::Held, None, t0, Some(5));
    tracker.note_at("aa", "p0", 10, 19, SEC, UploadRangePhase::Held, None, t0, Some(3));
    let all = tracker.snapshot_all_at(t0);
    let keys: Vec<&str> = all.iter().map(|s| s.file_hash_md4_hex.as_str()).collect();
    assert_eq!(keys, vec!["aa", "bb"]);
    assert_eq!(all[0].active_peer_ids, vec!["p0".to_string(), "p1".to_string()]);
    assert_eq!(all[0].active_since_unix_secs, Some(3));
    assert_eq!(all[0].total_requests, 2);
    assert_eq!(all[0].sessions[0].session_id + 1, all[0].sessions[1].session_id);
    assert_eq!(tracker.snapshot_for_hash("zz"), UploadActivitySnapshot::default());
}

#[test]
fn zero_fill_block_covers_inclusive_range() {
    assert_eq!(zero_fill_block(2, 5), vec![0u8; 4]);
    assert_eq!(zero_fill_block(5, 2), vec![0u8; 1]);
}
