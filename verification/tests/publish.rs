use rust_mule::publish::{PublishOutcome, SharedPublishSnapshot, SharedPublishTracker};

#[test]
fn tracker_records_source_and_keyword_queue_outcomes() {
    let mut tracker = SharedPublishTracker::default();
    tracker.note_source_queued("abcd");
    tracker.note_keyword_queued("abcd");
    tracker.note_keyword_queue_failed("abcd");

    let snap = tracker.snapshot_for_hash("ABCD");
    assert_eq!(snap.source_attempts, 1);
    assert_eq!(snap.source_last_result.as_deref(), Some("queued"));
    assert_eq!(snap.keyword_attempts, 2);
    assert_eq!(snap.keyword_queued, 1);
    assert_eq!(snap.keyword_failed, 1);
    assert_eq!(snap.keyword_last_result.as_deref(), Some("queue_failed"));
}

#[test]
fn unknown_hash_has_empty_record_and_times_are_kept() {
    let mut tracker = SharedPublishTracker::new();
    assert_eq!(tracker.snapshot_for_hash("ffff"), SharedPublishSnapshot::default());
    tracker.note_outcome_at("FfFf", PublishOutcome::SourceQueueFailed, Some(42));
    tracker.note_outcome_at("ffff", PublishOutcome::SourceQueueFailed, Some(43));
    let s = tracker.snapshot_for_hash("FFFF");
    assert_eq!(s.source_attempts, 2);
    assert_eq!(s.source_last_attempt_unix_secs, Some(43));
    assert_eq!(s.source_last_result.as_deref(), Some("queue_failed"));
    assert_eq!(s.keyword_attempts, 0);
    assert_eq!(tracker.snapshot_for_hash("aaaa").source_attempts, 0);
}
