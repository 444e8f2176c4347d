use rust_mule::transfer_rate::RollingTransferRate;

const SEC: u64 = 1_000_000_000;

#[test]
fn rolling_transfer_rate_respects_5s_and_30s_windows() {
    let start = 1_000 * SEC;
    let mut rate = RollingTransferRate::default();
    rate.note_bytes_at(start, 500);
    rate.note_bytes_at(start + 4 * SEC, 500);
    rate.note_bytes_at(start + 20 * SEC, 3000);

    let snapshot = rate.snapshot_at(start + 20 * SEC);
    assert_eq!(snapshot.rate_bps_5s, 3000 / 5);
    assert_eq!(snapshot.rate_bps_30s, 4000 / 30);
}

#[test]
fn rolling_transfer_rate_prunes_samples_older_than_30s() {
    let start = 1_000 * SEC;
    let mut rate = RollingTransferRate::default();
    rate.note_bytes_at(start, 3000);
    rate.note_bytes_at(start + 31 * SEC, 1500);

    let snapshot = rate.snapshot_at(start + 31 * SEC);
    assert_eq!(snapshot.rate_bps_5s, 1500 / 5);
    assert_eq!(snapshot.rate_bps_30s, 1500 / 30);
}

#[test]
fn rolling_transfer_rate_window_edges_and_zero() {
    let start = 50 * SEC;
    let mut rate = RollingTransferRate::new();
    rate.note_bytes_at(start, 0);
    assert_eq!(rate.snapshot_at(start).rate_bps_30s, 0);
    rate.note_bytes_at(start, 600);
    // exactly 5 s old still counts; a hair older does not
    let s = rate.snapshot_at(start + 5 * SEC);
    assert_eq!(s.rate_bps_5s, 120);
    let s = rate.snapshot_at(start + 5 * SEC + 1);
    assert_eq!(s.rate_bps_5s, 0);
    assert_eq!(s.rate_bps_30s, 20);
    // exactly 30 s old is kept, later dropped for good
    assert_eq!(rate.snapshot_at(start + 30 * SEC).rate_bps_30s, 20);
    assert_eq!(rate.snapshot_at(start + 30 * SEC + 1).rate_bps_30s, 0);
    assert_eq!(rate.snapshot_at(start).rate_bps_30s, 0);
}

#[test]
fn rolling_transfer_rate_uses_the_clock() {
    let mut rate = RollingTransferRate::default();
    rate.note_bytes(3000);
    let s = rate.snapshot();
    assert_eq!(s.rate_bps_5s, 600);
    assert_eq!(s.rate_bps_30s, 100);
}
