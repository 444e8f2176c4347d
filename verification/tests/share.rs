use rust_mule::share::path_within_root;
use rust_mule::kad::md4::digest;
use rust_mule::kad::KadId;
use rust_mule::share::{
    admit_share_root, ensure_safe_root, index_shared_files, is_known_unsafe_system_root, is_root_path,
    paths_overlap, trim_share_root, ShareError, SharedFile, SharedLibrary,
};

fn file(path: &str, size: u64) -> SharedFile {
    SharedFile {
        root_index: 0,
        canonical_path: path.to_string(),
        relative_path: path.trim_start_matches("/srv/share/").to_string(),
        file_size: size,
    }
}

#[test]
fn path_overlap_is_by_component() {
    assert!(paths_overlap("/a/b", "/a"));
    assert!(paths_overlap("/a", "/a/b"));
    assert!(paths_overlap("/a/b", "/a/b"));
    assert!(!paths_overlap("/ab", "/a"));
    assert!(paths_overlap("/a//b/", "/a/b"));
    assert!(paths_overlap("/a/./b", "/a/b/c"));
    assert!(!paths_overlap("/a/b", "/a/c"));
    assert!(paths_overlap("/", "/anything"));
}

#[test]
fn root_and_system_directories_are_unsafe() {
    assert!(is_root_path("/"));
    assert!(!is_root_path("/srv"));
    assert!(is_known_unsafe_system_root("/etc"));
    assert!(!is_known_unsafe_system_root("/etc/music"));
    let err = ensure_safe_root("/tmp", "/data").expect_err("unsafe");
    assert_eq!(err.to_string(), "unsafe share root '/tmp'");
    assert!(ensure_safe_root("/", "/data").is_err());
    assert!(ensure_safe_root("/srv/share", "/srv/share/data").is_err());
    assert!(ensure_safe_root("/srv/music", "/home/me/data").is_ok());
}

#[test]
fn empty_share_root_is_refused() {
    let err = trim_share_root("  ").expect_err("empty");
    assert!(err.to_string().contains("must not be empty"));
    assert_eq!(trim_share_root("  /srv/a \t").expect("trimmed"), "/srv/a");
}

#[test]
fn overlapping_roots_are_refused() {
    let mut roots = Vec::new();
    admit_share_root(&mut roots, "/srv/a".to_string(), "/srv/a".to_string(), "/data").expect("first");
    admit_share_root(&mut roots, "/srv/b".to_string(), "/srv/b".to_string(), "/data").expect("second");
    let err = admit_share_root(&mut roots, "/srv/a/n".to_string(), "/srv/a/n".to_string(), "/data")
        .expect_err("overlap");
    assert!(err.to_string().contains("overlapping share roots"));
    assert_eq!(err.to_string(), "overlapping share roots '/srv/a' and '/srv/a/n'");
    assert_eq!(roots.len(), 2);
    assert!(matches!(
        admit_share_root(&mut roots, "/data/x".to_string(), "/data/x".to_string(), "/data"),
        Err(ShareError::UnsafeRoot(_))
    ));
}

#[test]
fn index_keeps_first_path_per_hash_and_finds_by_hash() {
    let hello = KadId(digest(b"hello world"));
    let other = KadId(digest(b"abc"));
    let lib = index_shared_files(vec![
        (file("/srv/share/hello.txt", 11), hello),
        (file("/srv/share/copy.txt", 11), hello),
        (file("/srv/share/abc.txt", 3), other),
    ]);
    assert_eq!(lib.len(), 2);
    assert!(!lib.is_empty());
    assert_eq!(lib.files()[0].file_hash_md4_hex, "aa010fbc1d14c795d86ef98c95479d17");
    assert_eq!(lib.files()[0].canonical_path, "/srv/share/hello.txt");
    let found = lib
        .get_by_hash_hex("AA010FBC1D14C795D86EF98C95479D17")
        .expect("found");
    assert_eq!(found.relative_path, "hello.txt");
    assert!(lib.get_by_hash_hex("00").is_none());
    assert!(SharedLibrary::new().is_empty());
}

#[test]
fn files_are_placed_relative_to_their_root() {
    assert_eq!(path_within_root("/data/share/a/b.txt", "/data/share"), Some("a/b.txt".to_string()));
    assert_eq!(path_within_root("/data/share", "/data/share"), Some(String::new()));
    assert_eq!(path_within_root("/data/shared/x", "/data/share"), None);
    assert_eq!(path_within_root("/data", "/data/share"), None);
    assert_eq!(path_within_root("/etc/passwd", "/"), Some("etc/passwd".to_string()));
}
