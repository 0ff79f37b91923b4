use rust_git::codec::{index_to_text, parse_index};
use rust_git::commit::{log_to_text, parse_log, render_commit_text, parse_commit, Commit};
use rust_git::digest::digest_of;
use rust_git::errors::VcsError;
use rust_git::index::IndexEntry;
use rust_git::store::ObjectStore;

#[test]
fn digest_of_known_values() {
    // SHA-1 of the empty input and of "hello"; fails if the digest wrapper
    // handed its argument back unchanged.
    assert_eq!(digest_of(&[]), "da39a3ee5e6b4b0d3255bfef95601890afd80709");
    assert_eq!(
        digest_of(b"hello"),
        "aaf4c61ddcc5e8a2dabede0f3b482cd9aea9434d"
    );
}

#[test]
fn put_get_round_trip() {
    let mut store = ObjectStore::new();
    let d = store.put(b"hello".to_vec());
    assert_eq!(d, "aaf4c61ddcc5e8a2dabede0f3b482cd9aea9434d");
    let back = store.read_object(&d).unwrap();
    assert_eq!(back, b"hello".to_vec());
}

#[test]
fn put_is_idempotent() {
    let mut store = ObjectStore::new();
    let d1 = store.put(b"same bytes".to_vec());
    assert!(store.contains(&d1));
    let d2 = store.put(b"same bytes".to_vec());
    assert_eq!(d1, d2);
    assert_eq!(store.read_object(&d1).unwrap(), b"same bytes".to_vec());
    assert_eq!(store.object_count(), 1);
}

#[test]
fn object_location_splits_after_two_characters() {
    let (bucket, rest) = ObjectStore::object_location("aaf4c61ddcc5e8a2dabede0f3b482cd9aea9434d");
    assert_eq!(bucket, "aa");
    assert_eq!(rest, "f4c61ddcc5e8a2dabede0f3b482cd9aea9434d");
}

#[test]
fn read_object_missing_fails() {
    let store = ObjectStore::new();
    let missing = "aaf4c61ddcc5e8a2dabede0f3b482cd9aea9434d".to_string();
    match store.read_object(&missing) {
        Err(VcsError::ObjectNotFound(h)) => assert_eq!(h, missing),
        _ => panic!("expected ObjectNotFound"),
    }
}

#[test]
fn index_text_exact_form() {
    let entries = vec![IndexEntry {
        path: "a".to_string(),
        hash: "h".to_string(),
    }];
    let text = index_to_text(&entries);
    assert_eq!(
        text,
        "00000000000000000001 a 00000000000000000001 h \n"
    );
}

#[test]
fn index_round_trip_plain() {
    let entries = vec![
        IndexEntry { path: "src/main.rs".to_string(), hash: "aaf4c61ddcc5e8a2dabede0f3b482cd9aea9434d".to_string() },
        IndexEntry { path: "README.md".to_string(), hash: "da39a3ee5e6b4b0d3255bfef95601890afd80709".to_string() },
    ];
    let text = index_to_text(&entries);
    let back = parse_index(&text).unwrap();
    assert_eq!(back.len(), 2);
    assert_eq!(back[0].path, "src/main.rs");
    assert_eq!(back[0].hash, "aaf4c61ddcc5e8a2dabede0f3b482cd9aea9434d");
    assert_eq!(back[1].path, "README.md");
    assert_eq!(back[1].hash, "da39a3ee5e6b4b0d3255bfef95601890afd80709");
}

#[test]
fn index_round_trip_awkward_paths() {
    // spaces and even line feeds round-trip: fields are length-prefixed
    let entries = vec![
        IndexEntry { path: "with space/and more".to_string(), hash: "h1".to_string() },
        IndexEntry { path: "with\nnewline".to_string(), hash: "h2".to_string() },
        IndexEntry { path: "unicode/\u{00e9}\u{4e2d}.txt".to_string(), hash: "h3".to_string() },
    ];
    let text = index_to_text(&entries);
    let back = parse_index(&text).unwrap();
    assert_eq!(back.len(), 3);
    assert_eq!(back[0].path, "with space/and more");
    assert_eq!(back[1].path, "with\nnewline");
    assert_eq!(back[2].path, "unicode/\u{00e9}\u{4e2d}.txt");
    assert_eq!(back[2].hash, "h3");
}

#[test]
fn parse_index_rejects_garbage() {
    match parse_index("not a snapshot") {
        Err(VcsError::MalformedRecord(_)) => {}
        _ => panic!("expected MalformedRecord"),
    }
    match parse_index("0000000000000000001 a") {
        Err(VcsError::MalformedRecord(_)) => {}
        _ => panic!("expected MalformedRecord"),
    }
    assert!(parse_index("").unwrap().is_empty());
}

#[test]
fn commit_text_and_parse() {
    let th = "aaf4c61ddcc5e8a2dabede0f3b482cd9aea9434d";
    let text = render_commit_text(th, 1234, "a message\nwith lines");
    assert!(text.starts_with("tree aaf4c61ddcc5e8a2dabede0f3b482cd9aea9434d\n"));
    let got = parse_commit(text.as_bytes()).unwrap();
    assert_eq!(got, th);
}

#[test]
fn parse_commit_rejects_bad_records() {
    match parse_commit(&[0xff, 0xfe, 0x00]) {
        Err(VcsError::MalformedRecord(_)) => {}
        _ => panic!("expected MalformedRecord on invalid encoding"),
    }
    match parse_commit(b"author nobody\n\nmessage") {
        Err(VcsError::MalformedRecord(_)) => {}
        _ => panic!("expected MalformedRecord without a tree line"),
    }
}

#[test]
fn log_round_trip() {
    let commits = vec![
        Commit {
            id: "id1".to_string(),
            message: "first\nmultiline".to_string(),
            author: "RustGit <rustgit@example.com>".to_string(),
            timestamp: -42,
            tree_hash: "t1".to_string(),
        },
        Commit {
            id: "id2".to_string(),
            message: String::new(),
            author: "someone else".to_string(),
            timestamp: i64::MAX,
            tree_hash: "t2".to_string(),
        },
        Commit {
            id: "id3".to_string(),
            message: "third".to_string(),
            author: "a".to_string(),
            timestamp: i64::MIN,
            tree_hash: "t3".to_string(),
        },
    ];
    let text = log_to_text(&commits);
    let back = parse_log(&text).unwrap();
    assert_eq!(back.len(), 3);
    assert_eq!(back[0].id, "id1");
    assert_eq!(back[0].message, "first\nmultiline");
    assert_eq!(back[0].timestamp, -42);
    assert_eq!(back[1].timestamp, i64::MAX);
    assert_eq!(back[1].message, "");
    assert_eq!(back[2].timestamp, i64::MIN);
    assert_eq!(back[2].tree_hash, "t3");
}

#[test]
fn parse_log_rejects_garbage() {
    match parse_log("[abc] def\n{}") {
        Err(VcsError::MalformedRecord(_)) => {}
        _ => panic!("expected MalformedRecord"),
    }
    assert!(parse_log("").unwrap().is_empty());
}

#[test]
fn error_labels_and_context() {
    let e = VcsError::NotStaged("a.txt".to_string());
    assert_eq!(e.kind_label(), "not staged");
    assert_eq!(e.offending().unwrap(), "a.txt");
    assert_eq!(VcsError::EmptyIndex.kind_label(), "empty index");
    assert!(VcsError::EmptyIndex.offending().is_none());
    assert_eq!(
        VcsError::RepositoryNotInitialized.kind_label(),
        "repository not initialized"
    );
    assert_eq!(
        VcsError::PathNotFound("x".to_string()).kind_label(),
        "path not found"
    );
    assert_eq!(
        VcsError::PathOutsideRepository("y".to_string()).kind_label(),
        "path outside repository"
    );
    assert_eq!(VcsError::IoFailure("z".to_string()).kind_label(), "io failure");
}
