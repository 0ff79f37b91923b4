use rust_git::errors::VcsError;
use rust_git::index::{normalize_path, Index, IndexEntry};
use rust_git::repo::Repository;

#[test]
fn normalize_path_switches_separators() {
    assert_eq!(normalize_path("dir\\sub\\a.txt"), "dir/sub/a.txt");
    assert_eq!(normalize_path("already/fine"), "already/fine");
    assert_eq!(normalize_path(""), "");
}

#[test]
fn stage_updates_in_place() {
    // after staging a path the index holds exactly one entry for it,
    // whether or not it was staged before
    let mut repo = Repository::new();
    let d1 = repo.stage_file("a.txt", b"one".to_vec());
    let d2 = repo.stage_file("a.txt", b"two".to_vec());
    assert_ne!(d1, d2);
    let entries = repo.index_entries();
    assert_eq!(entries.len(), 1);
    assert_eq!(entries[0].path, "a.txt");
    assert_eq!(entries[0].hash, d2);
}

#[test]
fn stage_appends_new_paths_in_order() {
    let mut repo = Repository::new();
    repo.stage_file("b.txt", b"b".to_vec());
    repo.stage_file("a.txt", b"a".to_vec());
    let entries = repo.index_entries();
    assert_eq!(entries.len(), 2);
    assert_eq!(entries[0].path, "b.txt");
    assert_eq!(entries[1].path, "a.txt");
}

#[test]
fn stage_normalizes_separators() {
    let mut repo = Repository::new();
    repo.stage_file("dir\\a.txt", b"x".to_vec());
    assert_eq!(repo.index_entries()[0].path, "dir/a.txt");
}

#[test]
fn unstage_removes_exact_path() {
    let mut index = Index::new();
    index.stage("dir/a.txt".to_string(), "h1".to_string());
    index.stage("dir/a.txt.bak".to_string(), "h2".to_string());
    index.unstage(&"dir/a.txt".to_string()).unwrap();
    // no directory-prefix matching: the other entry stays
    assert_eq!(index.len(), 1);
    let entries = index.as_entries();
    assert_eq!(entries.len(), 1);
    assert_eq!(entries[0].path, "dir/a.txt.bak");
}

#[test]
fn unstage_missing_fails_and_leaves_index_unchanged() {
    let mut index = Index::new();
    index.stage("kept.txt".to_string(), "h".to_string());
    match index.unstage(&"other.txt".to_string()) {
        Err(VcsError::NotStaged(p)) => assert_eq!(p, "other.txt"),
        _ => panic!("expected NotStaged"),
    }
    let entries = index.as_entries();
    assert_eq!(entries.len(), 1);
    assert_eq!(entries[0].path, "kept.txt");
    assert_eq!(entries[0].hash, "h");
}

#[test]
fn directory_add_stages_each_file_separately() {
    // two files under one directory become two independent entries with
    // normalized separators; the directory itself never appears
    let mut repo = Repository::new();
    let files = vec![
        ("dir\\a.txt".to_string(), b"aaa".to_vec()),
        ("dir/b.txt".to_string(), b"bbb".to_vec()),
    ];
    repo.stage_files(&files);
    let entries = repo.index_entries();
    assert_eq!(entries.len(), 2);
    assert_eq!(entries[0].path, "dir/a.txt");
    assert_eq!(entries[1].path, "dir/b.txt");
    assert!(entries.iter().all(|e| e.path != "dir" && e.path != "dir/"));
}

#[test]
fn directory_add_skips_metadata_directory() {
    let mut repo = Repository::new();
    let files = vec![
        (".rust-git/index".to_string(), b"secret".to_vec()),
        (".rust-git".to_string(), b"secret".to_vec()),
        (".rust-git-lookalike".to_string(), b"kept".to_vec()),
        ("real.txt".to_string(), b"kept".to_vec()),
    ];
    repo.stage_files(&files);
    let entries = repo.index_entries();
    assert_eq!(entries.len(), 2);
    assert_eq!(entries[0].path, ".rust-git-lookalike");
    assert_eq!(entries[1].path, "real.txt");
}

#[test]
fn from_entries_rejects_duplicate_paths() {
    let dup = vec![
        IndexEntry { path: "a".to_string(), hash: "h1".to_string() },
        IndexEntry { path: "a".to_string(), hash: "h2".to_string() },
    ];
    assert!(Index::from_entries(dup).is_none());
    let ok = vec![
        IndexEntry { path: "a".to_string(), hash: "h1".to_string() },
        IndexEntry { path: "b".to_string(), hash: "h2".to_string() },
    ];
    assert!(Index::from_entries(ok).is_some());
}
