use vcs::objects::{hash_blob, IndexEntry};
use vcs::status::{status, StatusReport};

fn staged(path: &str, content: &[u8]) -> IndexEntry {
    IndexEntry {
        path: path.to_string(),
        hash: hash_blob(&content.to_vec()),
        size: content.len() as u64,
        mode: "100644".to_string(),
    }
}

fn file(path: &str, content: &[u8]) -> (String, Vec<u8>) {
    (path.to_string(), content.to_vec())
}

fn committed(path: &str, content: &[u8]) -> (String, String) {
    (path.to_string(), hash_blob(&content.to_vec()))
}

fn list(paths: &[&str]) -> Vec<String> {
    paths.iter().map(|p| p.to_string()).collect()
}

fn empty_report() -> StatusReport {
    StatusReport {
        staged_new: vec![],
        staged_modified: vec![],
        staged_deleted: vec![],
        modified: vec![],
        deleted: vec![],
        untracked: vec![],
    }
}

#[test]
fn status_of_empty_repository_is_clean() {
    let report = status(&vec![], &vec![], &vec![]);
    assert_eq!(report, empty_report());
    assert!(report.is_clean());
    assert!(!report.has_staged());
}

#[test]
fn status_unchanged_committed_file_is_clean() {
    let report = status(&vec![file("a.txt", b"hi")], &vec![], &vec![committed("a.txt", b"hi")]);
    assert_eq!(report, empty_report());
    let report = status(
        &vec![file("a.txt", b"hi")],
        &vec![staged("a.txt", b"hi")],
        &vec![committed("a.txt", b"hi")],
    );
    assert_eq!(report, empty_report());
}

#[test]
fn status_edit_after_commit_is_modified_not_staged() {
    let report = status(&vec![file("a.txt", b"bye")], &vec![], &vec![committed("a.txt", b"hi")]);
    let mut expected = empty_report();
    expected.modified = list(&["a.txt"]);
    assert_eq!(report, expected);
    assert!(!report.has_staged());
    assert!(!report.is_clean());
}

#[test]
fn status_decision_table() {
    let working = vec![
        file("clean", b"1"),
        file("staged-mod", b"2"),
        file("new", b"3"),
        file("mod", b"4x"),
        file("both", b"5y"),
        file("new-mod", b"6y"),
        file("head-clean", b"7"),
        file("head-mod", b"8x"),
        file("untracked", b"9"),
    ];
    let index = vec![
        staged("clean", b"1"),
        staged("staged-mod", b"2"),
        staged("new", b"3"),
        staged("mod", b"4"),
        staged("both", b"5x"),
        staged("new-mod", b"6"),
        staged("gone-staged", b"a"),
        staged("gone-new", b"b"),
    ];
    let head = vec![
        committed("clean", b"1"),
        committed("staged-mod", b"2old"),
        committed("mod", b"4"),
        committed("both", b"5"),
        committed("head-clean", b"7"),
        committed("head-mod", b"8"),
        committed("gone-staged", b"a"),
        committed("gone", b"c"),
    ];
    let report = status(&working, &index, &head);
    assert_eq!(report.staged_new, list(&["new", "new-mod"]));
    assert_eq!(report.staged_modified, list(&["both", "staged-mod"]));
    assert_eq!(report.staged_deleted, list(&["gone-staged"]));
    assert_eq!(report.modified, list(&["both", "head-mod", "mod", "new-mod"]));
    assert_eq!(report.deleted, list(&["gone"]));
    assert_eq!(report.untracked, list(&["untracked"]));
    assert!(report.has_staged());
}

#[test]
fn status_every_path_is_clean_or_listed() {
    let working = vec![file("a", b"1"), file("b", b"2"), file("c", b"3"), file("d", b"4")];
    let index = vec![staged("a", b"1"), staged("b", b"x"), staged("e", b"5"), staged("f", b"6")];
    let head = vec![
        committed("a", b"1"),
        committed("c", b"3"),
        committed("e", b"5"),
        committed("g", b"7"),
    ];
    let report = status(&working, &index, &head);
    for path in ["a", "b", "c", "d", "e", "f", "g"] {
        let p = path.to_string();
        let lists = [
            &report.staged_new,
            &report.staged_modified,
            &report.staged_deleted,
            &report.modified,
            &report.deleted,
            &report.untracked,
        ];
        let hits: Vec<usize> = (0..6).filter(|i| lists[*i].contains(&p)).collect();
        match path {
            "a" | "c" | "f" => assert!(hits.is_empty()),
            "b" => assert_eq!(hits, vec![0, 3]),
            "d" => assert_eq!(hits, vec![5]),
            "e" => assert_eq!(hits, vec![2]),
            _ => assert_eq!(hits, vec![4]),
        }
    }
}

#[test]
fn status_lists_are_sorted_like_strings() {
    let working = vec![
        file("z", b"1"),
        file("a/b", b"1"),
        file("\u{e9}", b"1"),
        file("a", b"1"),
        file("B", b"1"),
        file("a.txt", b"1"),
        file("\u{1f600}", b"1"),
        file("", b"1"),
        file("ab", b"1"),
    ];
    let report = status(&working, &vec![], &vec![]);
    let mut expected: Vec<String> = working.iter().map(|w| w.0.clone()).collect();
    expected.sort();
    assert_eq!(report.untracked, expected);
    assert_eq!(expected[0], "");
    assert_eq!(expected[1], "B");
}

#[test]
fn status_takes_the_last_of_repeated_paths() {
    let working = vec![file("a", b"old"), file("a", b"new")];
    let index = vec![staged("a", b"x"), staged("a", b"new")];
    let head = vec![committed("a", b"q"), committed("a", b"new")];
    let report = status(&working, &index, &head);
    assert_eq!(report, empty_report());
    let report = status(&working, &vec![], &vec![]);
    assert_eq!(report.untracked, list(&["a"]));
}

#[test]
fn status_compares_by_blob_digest() {
    let head = vec![("a.txt".to_string(), "32f95c0d1244a78b2be1bab8de17906fabb2c4a8".to_string())];
    let report = status(&vec![file("a.txt", b"hi")], &vec![], &head);
    assert_eq!(report, empty_report());
    let report = status(&vec![file("a.txt", b"hi\n")], &vec![], &head);
    assert_eq!(report.modified, list(&["a.txt"]));
}

#[test]
fn classify_compares_given_digests() {
    let working = vec![
        ("a".to_string(), "d1".to_string()),
        ("b".to_string(), "d2".to_string()),
        ("c".to_string(), "d3".to_string()),
    ];
    let index = vec![IndexEntry {
        path: "a".to_string(),
        hash: "d0".to_string(),
        size: 0,
        mode: "100644".to_string(),
    }];
    let head = vec![("b".to_string(), "d2".to_string()), ("z".to_string(), "d9".to_string())];
    let report = vcs::status::classify(&working, &index, &head);
    assert_eq!(report.staged_new, list(&["a"]));
    assert_eq!(report.modified, list(&["a"]));
    assert_eq!(report.untracked, list(&["c"]));
    assert_eq!(report.deleted, list(&["z"]));
    assert!(report.staged_modified.is_empty());
    assert!(report.staged_deleted.is_empty());
}
