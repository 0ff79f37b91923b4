use rust_git::errors::VcsError;
use rust_git::repo::{CheckoutOutcome, Repository};

#[test]
fn fresh_repository_state() {
    let repo = Repository::new();
    assert_eq!(repo.get_current_branch(), "master");
    let branches = repo.list_branches();
    assert_eq!(branches, vec!["master".to_string()]);
    assert_eq!(repo.read_branch_commit("master").unwrap(), "");
    assert!(repo.log().is_empty());
    assert_eq!(repo.object_count(), 0);
}

#[test]
fn commit_on_empty_index_fails_and_writes_nothing() {
    let mut repo = Repository::new();
    match repo.commit_at("nothing staged", 10) {
        Err(VcsError::EmptyIndex) => {}
        _ => panic!("expected EmptyIndex"),
    }
    assert_eq!(repo.object_count(), 0);
    assert!(repo.log().is_empty());
    assert_eq!(repo.read_branch_commit("master").unwrap(), "");
}

#[test]
fn first_commit_appears_in_log() {
    // initialize, stage a.txt = "hello", commit "first": the log holds
    // exactly one record whose message is "first"
    let mut repo = Repository::new();
    repo.stage_file("a.txt", b"hello".to_vec());
    let commit = repo.commit_at("first", 1000).unwrap();
    assert_eq!(commit.message, "first");
    assert_eq!(commit.timestamp, 1000);
    assert_eq!(commit.author, "RustGit <rustgit@example.com>");
    let log = repo.log();
    assert_eq!(log.len(), 1);
    assert_eq!(log[0].message, "first");
    assert_eq!(log[0].id, commit.id);
    // the commit advanced the active branch's ref
    assert_eq!(repo.read_branch_commit("master").unwrap(), commit.id);
    // the index is not cleared by a commit
    assert_eq!(repo.index_entries().len(), 1);
}

#[test]
fn log_is_sorted_by_timestamp_descending() {
    let mut repo = Repository::new();
    repo.stage_file("a.txt", b"1".to_vec());
    repo.commit_at("older", 100).unwrap();
    repo.stage_file("a.txt", b"2".to_vec());
    repo.commit_at("newer", 300).unwrap();
    repo.stage_file("a.txt", b"3".to_vec());
    repo.commit_at("middle", 200).unwrap();
    let log = repo.log();
    assert_eq!(log.len(), 3);
    assert_eq!(log[0].message, "newer");
    assert_eq!(log[1].message, "middle");
    assert_eq!(log[2].message, "older");
}

#[test]
fn log_keeps_recording_order_on_equal_timestamps() {
    let mut repo = Repository::new();
    repo.stage_file("a.txt", b"1".to_vec());
    repo.commit_at("first of the tie", 50).unwrap();
    repo.stage_file("a.txt", b"2".to_vec());
    repo.commit_at("second of the tie", 50).unwrap();
    let log = repo.log();
    assert_eq!(log.len(), 2);
    assert_eq!(log[0].message, "first of the tie");
    assert_eq!(log[1].message, "second of the tie");
}

#[test]
fn commit_then_restore_reproduces_content() {
    // round trip: stage f with content C, commit, restore from that
    // commit's snapshot: C comes back at path f
    let mut repo = Repository::new();
    repo.stage_file("f.txt", b"the content C".to_vec());
    repo.stage_file("dir\\g.txt", b"second file".to_vec());
    let commit = repo.commit_at("snapshot", 7).unwrap();
    let writes = repo.restore_snapshot(&commit.id).unwrap();
    assert_eq!(writes.len(), 2);
    assert_eq!(writes[0].0, "f.txt");
    assert_eq!(writes[0].1, b"the content C".to_vec());
    assert_eq!(writes[1].0, "dir/g.txt");
    assert_eq!(writes[1].1, b"second file".to_vec());
}

#[test]
fn restore_from_unknown_commit_fails() {
    let repo = Repository::new();
    let missing = "aaf4c61ddcc5e8a2dabede0f3b482cd9aea9434d".to_string();
    match repo.restore_snapshot(&missing) {
        Err(VcsError::ObjectNotFound(_)) => {}
        _ => panic!("expected ObjectNotFound"),
    }
}

#[test]
fn create_branch_from_unborn_default_fails() {
    // a fresh repository's default branch has no commit yet
    let mut repo = Repository::new();
    match repo.create_branch("feature") {
        Err(VcsError::NoCommits(b)) => assert_eq!(b, "master"),
        _ => panic!("expected NoCommits"),
    }
    assert_eq!(repo.list_branches(), vec!["master".to_string()]);
}

#[test]
fn create_branch_validates_names() {
    let mut repo = Repository::new();
    match repo.create_branch("") {
        Err(VcsError::InvalidBranchName(_)) => {}
        _ => panic!("expected InvalidBranchName for an empty name"),
    }
    match repo.create_branch("a/b") {
        Err(VcsError::InvalidBranchName(_)) => {}
        _ => panic!("expected InvalidBranchName for a forward slash"),
    }
    match repo.create_branch("a\\b") {
        Err(VcsError::InvalidBranchName(_)) => {}
        _ => panic!("expected InvalidBranchName for a backslash"),
    }
}

#[test]
fn create_branch_points_at_head_commit_and_rejects_duplicates() {
    let mut repo = Repository::new();
    repo.stage_file("a.txt", b"x".to_vec());
    let commit = repo.commit_at("base", 1).unwrap();
    repo.create_branch("dev").unwrap();
    assert_eq!(repo.read_branch_commit("dev").unwrap(), commit.id);
    match repo.create_branch("dev") {
        Err(VcsError::BranchExists(b)) => assert_eq!(b, "dev"),
        _ => panic!("expected BranchExists"),
    }
}

#[test]
fn delete_branch_protects_current_and_default() {
    // deleting the active branch or the default branch always fails,
    // whether or not such a branch even exists otherwise
    let mut repo = Repository::new();
    match repo.delete_branch("master") {
        Err(VcsError::CannotDeleteCurrentOrDefaultBranch(_)) => {}
        _ => panic!("expected refusal for the default branch"),
    }
    repo.stage_file("a.txt", b"x".to_vec());
    repo.commit_at("base", 1).unwrap();
    repo.create_branch("dev").unwrap();
    match repo.checkout("dev").unwrap() {
        CheckoutOutcome::SwitchedBranch(_) => {}
        _ => panic!("expected a branch switch"),
    }
    // "dev" is now the active branch and not the default
    match repo.delete_branch("dev") {
        Err(VcsError::CannotDeleteCurrentOrDefaultBranch(b)) => assert_eq!(b, "dev"),
        _ => panic!("expected refusal for the active branch"),
    }
    match repo.delete_branch("master") {
        Err(VcsError::CannotDeleteCurrentOrDefaultBranch(_)) => {}
        _ => panic!("expected refusal for the default branch"),
    }
}

#[test]
fn delete_branch_removes_other_branches() {
    let mut repo = Repository::new();
    repo.stage_file("a.txt", b"x".to_vec());
    repo.commit_at("base", 1).unwrap();
    repo.create_branch("dev").unwrap();
    match repo.delete_branch("missing") {
        Err(VcsError::BranchNotFound(b)) => assert_eq!(b, "missing"),
        _ => panic!("expected BranchNotFound"),
    }
    repo.delete_branch("dev").unwrap();
    assert_eq!(repo.list_branches(), vec!["master".to_string()]);
}

#[test]
fn checkout_prefers_branch_over_path() {
    // the target names both an existing branch and a committed file path:
    // the branch switch wins
    let mut repo = Repository::new();
    repo.stage_file("target", b"file content".to_vec());
    repo.commit_at("base", 1).unwrap();
    repo.create_branch("target").unwrap();
    match repo.checkout("target").unwrap() {
        CheckoutOutcome::SwitchedBranch(_) => {}
        CheckoutOutcome::AlreadyOn => panic!("switched to a different branch"),
        CheckoutOutcome::RestoredFile(_, _) => panic!("restored the file instead of switching"),
    }
    assert_eq!(repo.get_current_branch(), "target");
}

#[test]
fn checkout_active_branch_is_a_no_op() {
    let mut repo = Repository::new();
    match repo.checkout("master").unwrap() {
        CheckoutOutcome::AlreadyOn => {}
        _ => panic!("expected AlreadyOn"),
    }
    assert_eq!(repo.get_current_branch(), "master");
}

#[test]
fn checkout_branch_yields_snapshot_writes() {
    let mut repo = Repository::new();
    repo.stage_file("a.txt", b"hello".to_vec());
    repo.commit_at("base", 1).unwrap();
    repo.create_branch("feature").unwrap();
    match repo.checkout("feature").unwrap() {
        CheckoutOutcome::SwitchedBranch(writes) => {
            assert_eq!(writes.len(), 1);
            assert_eq!(writes[0].0, "a.txt");
            assert_eq!(writes[0].1, b"hello".to_vec());
        }
        _ => panic!("expected a branch switch"),
    }
    assert_eq!(repo.get_current_branch(), "feature");
}

#[test]
fn checkout_path_restores_one_file() {
    let mut repo = Repository::new();
    repo.stage_file("f.txt", b"v1".to_vec());
    repo.commit_at("base", 1).unwrap();
    match repo.checkout("f.txt").unwrap() {
        CheckoutOutcome::RestoredFile(p, b) => {
            assert_eq!(p, "f.txt");
            assert_eq!(b, b"v1".to_vec());
        }
        _ => panic!("expected a file restore"),
    }
    match repo.checkout("missing.txt") {
        Err(VcsError::PathNotInSnapshot(p)) => assert_eq!(p, "missing.txt"),
        _ => panic!("expected PathNotInSnapshot"),
    }
}

#[test]
fn load_round_trips_repository_state() {
    let mut repo = Repository::new();
    repo.stage_file("a.txt", b"hello".to_vec());
    let commit = repo.commit_at("first", 5).unwrap();
    repo.create_branch("dev").unwrap();
    let mut objects = Vec::new();
    let mut i = 0;
    while i < repo.object_count() {
        let (k, v) = repo.object_at(i);
        objects.push((k.clone(), v.clone()));
        i += 1;
    }
    let index_entries: Vec<_> = repo.index_entries().iter().map(|e| e.dup()).collect();
    let branches: Vec<_> = repo
        .branch_refs()
        .iter()
        .map(|b| rust_git::repo::Branch { name: b.name.clone(), commit_id: b.commit_id.clone() })
        .collect();
    let commits: Vec<_> = repo.all_commits().iter().map(|c| c.dup()).collect();
    let loaded = Repository::load(
        objects,
        index_entries,
        branches,
        repo.get_current_branch(),
        commits,
    )
    .unwrap();
    assert_eq!(loaded.get_current_branch(), "master");
    assert_eq!(loaded.read_branch_commit("dev").unwrap(), commit.id);
    let log = loaded.log();
    assert_eq!(log.len(), 1);
    assert_eq!(log[0].message, "first");
    let writes = loaded.restore_snapshot(&commit.id).unwrap();
    assert_eq!(writes[0].0, "a.txt");
    assert_eq!(writes[0].1, b"hello".to_vec());
}

#[test]
fn load_rejects_corrupt_state() {
    // an object stored under a digest that is not the digest of its bytes
    let objects = vec![(
        "0000000000000000000000000000000000000000".to_string(),
        b"not those bytes".to_vec(),
    )];
    assert!(Repository::load(objects, Vec::new(), default_branches(), "master".to_string(), Vec::new()).is_none());
    // no default branch
    assert!(Repository::load(
        Vec::new(),
        Vec::new(),
        vec![rust_git::repo::Branch { name: "other".to_string(), commit_id: String::new() }],
        "other".to_string(),
        Vec::new(),
    )
    .is_none());
    // HEAD names no branch
    assert!(Repository::load(Vec::new(), Vec::new(), default_branches(), "ghost".to_string(), Vec::new()).is_none());
}

fn default_branches() -> Vec<rust_git::repo::Branch> {
    vec![rust_git::repo::Branch { name: "master".to_string(), commit_id: String::new() }]
}

#[test]
fn commit_with_clock_timestamp() {
    let mut repo = Repository::new();
    repo.stage_file("a.txt", b"x".to_vec());
    let commit = repo.commit("clocked").unwrap();
    assert_eq!(commit.message, "clocked");
    assert_eq!(repo.read_branch_commit("master").unwrap(), commit.id);
}

#[test]
fn repository_unstage_exact_path() {
    let mut repo = Repository::new();
    repo.stage_file("a.txt", b"x".to_vec());
    match repo.unstage("missing") {
        Err(VcsError::NotStaged(p)) => assert_eq!(p, "missing"),
        _ => panic!("expected NotStaged"),
    }
    repo.unstage("a.txt").unwrap();
    assert!(repo.index_entries().is_empty());
}

#[test]
fn update_branch_commit_moves_the_ref() {
    let mut repo = Repository::new();
    repo.update_branch_commit("master", "aaf4c61ddcc5e8a2dabede0f3b482cd9aea9434d");
    assert_eq!(
        repo.read_branch_commit("master").unwrap(),
        "aaf4c61ddcc5e8a2dabede0f3b482cd9aea9434d"
    );
    // creating a ref that does not exist yet
    repo.update_branch("fresh", "da39a3ee5e6b4b0d3255bfef95601890afd80709");
    assert_eq!(
        repo.read_branch_commit("fresh").unwrap(),
        "da39a3ee5e6b4b0d3255bfef95601890afd80709"
    );
}
