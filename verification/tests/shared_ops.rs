use rust_mule::kad::md4::digest;
use rust_mule::kad::KadId;
use rust_mule::shared_ops::{
    ensure_kad_service_enabled, keyword_publish_plan, reindex_report, republish_keywords_report,
    republish_sources_report, SharedActionBoard, SharedActionKind, SharedActionRejectReason,
};
use rust_mule::share::{index_shared_files, SharedFile};

#[test]
fn start_reindex_rejects_duplicate_running_action() {
    let mut board = SharedActionBoard::new();
    let first = board.start_action(SharedActionKind::Reindex, Some(1));
    assert!(first.started);
    assert_eq!(first.status.state, "running");
    let response = board.start_action(SharedActionKind::Reindex, Some(2));
    assert!(!response.started);
    assert_eq!(response.reason, Some(SharedActionRejectReason::AlreadyRunning));
    assert_eq!(response.status.state, "running");
    assert_eq!(response.status.started_unix_secs, Some(1));
}

#[test]
fn start_republish_sources_rejects_during_cooldown() {
    let mut board = SharedActionBoard::new();
    assert!(board.start_action(SharedActionKind::RepublishSources, Some(100)).started);
    board.finish_action(
        SharedActionKind::RepublishSources,
        Ok(republish_sources_report(1, 1, 0, Some(110))),
        Some(110),
    );
    let done = board.status(SharedActionKind::RepublishSources);
    assert_eq!(done.state, "succeeded");
    assert_eq!(done.started_unix_secs, Some(100));
    assert_eq!(done.cooldown_until_unix_secs, Some(410));

    let response = board.start_action(SharedActionKind::RepublishSources, Some(170));
    assert!(!response.started);
    assert_eq!(response.reason, Some(SharedActionRejectReason::CooldownActive));
    assert_eq!(response.status.state, "succeeded");

    assert!(board.start_action(SharedActionKind::RepublishSources, Some(410)).started);
}

#[test]
fn republish_fails_when_kad_service_disabled() {
    let mut board = SharedActionBoard::new();
    assert!(board.start_action(SharedActionKind::RepublishKeywords, Some(5)).started);
    let result = ensure_kad_service_enabled(false).map(|_| republish_keywords_report(0, 0, 0, 0, Some(6)));
    board.finish_action(SharedActionKind::RepublishKeywords, result, Some(6));
    let snapshot = board.action_snapshot();
    assert_eq!(snapshot.actions.len(), 3);
    let status = snapshot
        .actions
        .into_iter()
        .find(|action| action.action == "republish_keywords")
        .expect("republish_keywords status");
    assert_eq!(status.state, "failed");
    assert_eq!(status.last_error.as_deref(), Some("KAD service is disabled"));
    assert_eq!(status.started_unix_secs, Some(5));
    assert_eq!(status.finished_unix_secs, Some(6));
    assert!(ensure_kad_service_enabled(true).is_ok());
}

#[test]
fn reports_count_and_flag_failures() {
    let r = reindex_report(2, 7, 5, 2, Some(9));
    assert_eq!(r.action, "reindex");
    assert_eq!(r.state, "succeeded");
    assert_eq!(r.items_total, 2);
    assert_eq!(r.library_files_total, Some(7));
    let k = republish_keywords_report(4, 3, 1, 2, None);
    assert_eq!(k.state, "failed");
    assert_eq!(k.cooldown_until_unix_secs, None);
    assert_eq!(k.last_error.as_deref(), Some("one or more keyword publishes failed to queue"));
    assert_eq!(SharedActionKind::RepublishSources.as_str(), "republish_sources");
}

#[test]
fn keyword_plan_covers_each_word_of_each_file_name() {
    let lib = index_shared_files(vec![(
        SharedFile {
            root_index: 0,
            canonical_path: "/srv/share/music/Blue Moon.mp3".to_string(),
            relative_path: "music/Blue Moon.mp3".to_string(),
            file_size: 42,
        },
        KadId(digest(b"x")),
    )]);
    let plan = keyword_publish_plan(lib.files());
    let labels: Vec<&str> = plan.iter().map(|p| p.keyword_label.as_str()).collect();
    assert_eq!(labels, vec!["blue", "moon", "mp3"]);
    assert!(plan.iter().all(|p| p.filename == "Blue Moon.mp3"));
    assert!(plan.iter().all(|p| p.file_type.as_deref() == Some("mp3")));
    assert_eq!(plan[0].keyword, KadId(digest(b"blue")));
}
