use vcs::error::{ObjectError, RepoError};
use vcs::history::{cat_file, commit, log, log_start, CommitInfo, LogEntry};
use vcs::objects::{Commit, GitObject, IndexEntry, TreeEntry};
use vcs::staging::add_file;

fn info(parent: Option<&str>, message: &str, timestamp: i64) -> CommitInfo {
    CommitInfo {
        parent: parent.map(|p| p.to_string()),
        author_name: "Ann".to_string(),
        author_email: "ann@example.com".to_string(),
        message: message.to_string(),
        timestamp,
    }
}

fn index_with(path: &str, content: &[u8]) -> Vec<IndexEntry> {
    let mut index: Vec<IndexEntry> = Vec::new();
    add_file(&mut index, path, &content.to_vec(), "100644");
    index
}

#[test]
fn commit_of_nothing_fails() {
    assert_eq!(commit(&vec![], &info(None, "first", 1)), Err(RepoError::NothingToCommit));
}

#[test]
fn commit_of_one_file() {
    let plan = commit(&index_with("a.txt", b"hi"), &info(None, "first", 1700000000)).unwrap();
    assert_eq!(plan.commit_hash, "7867c3f7803006e53bae805f7069551d0e6ad830");
    assert_eq!(plan.summary, "Committed 7867c3f7: first");
    assert_eq!(plan.objects.len(), 2);
    assert_eq!(plan.objects[0].hash, "959186c87f11cedbc03fb0aa728575ce3dbf3335");
    assert_eq!(plan.objects[1].hash, plan.commit_hash);
    assert_eq!(
        GitObject::deserialize(&plan.objects[1].data).unwrap(),
        GitObject::Commit(Commit {
            tree: "959186c87f11cedbc03fb0aa728575ce3dbf3335".to_string(),
            parent: None,
            author: "Ann <ann@example.com>".to_string(),
            message: "first".to_string(),
            timestamp: 1700000000,
        })
    );
}

#[test]
fn commit_then_log_shows_the_message() {
    let plan = commit(&index_with("a.txt", b"hi"), &info(None, "first", 1700000000)).unwrap();
    let mut walk = log_start(Some(plan.commit_hash.clone()), None);
    let mut shown: Vec<LogEntry> = Vec::new();
    while let Some(hash) = walk.next_hash() {
        let stored = plan.objects.iter().find(|o| o.hash == hash).unwrap();
        let object = GitObject::deserialize(&stored.data).unwrap();
        if let Some(entry) = log(&mut walk, &object, false).unwrap() {
            shown.push(entry);
        }
    }
    assert_eq!(
        shown,
        vec![LogEntry::Full {
            hash: "7867c3f7803006e53bae805f7069551d0e6ad830".to_string(),
            author: "Ann <ann@example.com>".to_string(),
            date: "2023-11-14 22:13:20".to_string(),
            message: vec!["first".to_string()],
        }]
    );
}

#[test]
fn commit_with_parent_and_directory() {
    let mut index = index_with("a.txt", b"hi");
    add_file(&mut index, "x/b.txt", &b"hi".to_vec(), "100644");
    let parent = "7867c3f7803006e53bae805f7069551d0e6ad830";
    let plan = commit(&index, &info(Some(parent), "second", 5)).unwrap();
    assert_eq!(plan.objects.len(), 3);
    let sub = GitObject::deserialize(&plan.objects[0].data).unwrap();
    assert_eq!(
        sub,
        GitObject::Tree(vec![TreeEntry {
            mode: "100644".to_string(),
            name: "b.txt".to_string(),
            hash: "32f95c0d1244a78b2be1bab8de17906fabb2c4a8".to_string(),
        }])
    );
    match GitObject::deserialize(&plan.objects[1].data).unwrap() {
        GitObject::Tree(entries) => {
            assert_eq!(entries.len(), 2);
            assert_eq!(entries[0].name, "a.txt");
            assert_eq!(entries[1].name, "x");
            assert_eq!(entries[1].mode, "40000");
            assert_eq!(entries[1].hash, plan.objects[0].hash);
        }
        other => panic!("not a tree: {:?}", other),
    }
    match GitObject::deserialize(&plan.objects[2].data).unwrap() {
        GitObject::Commit(c) => {
            assert_eq!(c.tree, plan.objects[1].hash);
            assert_eq!(c.parent, Some("7867c3f7803006e53bae805f7069551d0e6ad830".to_string()));
            assert_eq!(c.timestamp, 5);
        }
        other => panic!("not a commit: {:?}", other),
    }
}

#[test]
fn commit_with_bad_digest_fails() {
    let index = vec![IndexEntry {
        path: "a.txt".to_string(),
        hash: "nothex".to_string(),
        size: 0,
        mode: "100644".to_string(),
    }];
    assert_eq!(
        commit(&index, &info(None, "m", 1)),
        Err(RepoError::Object(ObjectError::InvalidHash))
    );
}

fn history() -> Vec<(String, GitObject)> {
    let first = Commit {
        tree: "t1".to_string(),
        parent: None,
        author: "Ann".to_string(),
        message: "first".to_string(),
        timestamp: 0,
    };
    let second = Commit {
        tree: "t2".to_string(),
        parent: Some("aaaaaaaa1".to_string()),
        author: "Bob".to_string(),
        message: "second\r\nmore\n\nlast".to_string(),
        timestamp: -1,
    };
    vec![
        ("aaaaaaaa1".to_string(), GitObject::Commit(first)),
        ("bbbbbbbb2".to_string(), GitObject::Commit(second)),
    ]
}

fn run_log(oneline: bool, number: Option<usize>) -> Vec<LogEntry> {
    let store = history();
    let mut walk = log_start(Some("bbbbbbbb2".to_string()), number);
    let mut shown: Vec<LogEntry> = Vec::new();
    while let Some(hash) = walk.next_hash() {
        let object = &store.iter().find(|o| o.0 == hash).unwrap().1;
        match log(&mut walk, object, oneline).unwrap() {
            Some(entry) => shown.push(entry),
            None => break,
        }
    }
    shown
}

#[test]
fn log_walks_back_to_the_first_commit() {
    assert_eq!(
        run_log(false, None),
        vec![
            LogEntry::Full {
                hash: "bbbbbbbb2".to_string(),
                author: "Bob".to_string(),
                date: "1969-12-31 23:59:59".to_string(),
                message: vec![
                    "second".to_string(),
                    "more".to_string(),
                    String::new(),
                    "last".to_string()
                ],
            },
            LogEntry::Full {
                hash: "aaaaaaaa1".to_string(),
                author: "Ann".to_string(),
                date: "1970-01-01 00:00:00".to_string(),
                message: vec!["first".to_string()],
            },
        ]
    );
}

#[test]
fn log_in_one_line() {
    assert_eq!(
        run_log(true, None),
        vec![
            LogEntry::OneLine {
                short_hash: "bbbbbbbb".to_string(),
                first_line: "second".to_string(),
            },
            LogEntry::OneLine {
                short_hash: "aaaaaaaa".to_string(),
                first_line: "first".to_string(),
            },
        ]
    );
}

#[test]
fn log_stops_at_the_limit() {
    assert_eq!(run_log(true, Some(1)).len(), 1);
    assert_eq!(run_log(true, Some(0)).len(), 0);
    assert_eq!(run_log(true, Some(5)).len(), 2);
    assert_eq!(log_start(None, None).next_hash(), None);
}

#[test]
fn log_ends_at_an_object_that_is_no_commit() {
    let mut walk = log_start(Some("cccccccc3".to_string()), None);
    assert_eq!(log(&mut walk, &GitObject::Blob(vec![]), true), Ok(None));
    assert_eq!(walk.next_hash(), None);
    assert_eq!(walk.count, 0);
}

#[test]
fn log_rejects_a_time_that_is_no_date() {
    let odd = GitObject::Commit(Commit {
        tree: "t".to_string(),
        parent: None,
        author: "a".to_string(),
        message: String::new(),
        timestamp: i64::MAX,
    });
    let mut walk = log_start(Some("dddddddd4".to_string()), None);
    assert_eq!(log(&mut walk, &odd, false), Err(RepoError::InvalidDate));
    assert_eq!(walk.next_hash(), Some("dddddddd4".to_string()));
    assert_eq!(
        log(&mut walk, &odd, true),
        Ok(Some(LogEntry::OneLine {
            short_hash: "dddddddd".to_string(),
            first_line: String::new(),
        }))
    );
}

#[test]
fn cat_file_shows_each_kind() {
    assert_eq!(cat_file(&GitObject::Blob(b"hi\n".to_vec())), "hi\n");
    assert_eq!(cat_file(&GitObject::Blob(vec![b'a', 0xff, b'b'])), "a\u{fffd}b");
    let tree = GitObject::Tree(vec![
        TreeEntry { mode: "100644".to_string(), name: "a.txt".to_string(), hash: "h1".to_string() },
        TreeEntry { mode: "40000".to_string(), name: "dir".to_string(), hash: "h2".to_string() },
    ]);
    assert_eq!(cat_file(&tree), "100644 h1 a.txt\n40000 h2 dir\n");
    assert_eq!(cat_file(&GitObject::Tree(vec![])), "");
    let c = Commit {
        tree: "t".to_string(),
        parent: Some("p".to_string()),
        author: "Ann".to_string(),
        message: "first".to_string(),
        timestamp: -7,
    };
    assert_eq!(
        cat_file(&GitObject::Commit(c)),
        "tree t\nparent p\nauthor Ann\ntimestamp -7\n\nfirst\n"
    );
}

#[test]
fn log_of_a_walk_that_is_over_shows_nothing() {
    let object = GitObject::Blob(vec![]);
    let mut walk = log_start(None, None);
    assert_eq!(log(&mut walk, &object, false), Ok(None));
    assert_eq!(walk, log_start(None, None));
    let mut walk = log_start(Some("aaaaaaaa1".to_string()), Some(0));
    assert_eq!(log(&mut walk, &history()[0].1, true), Ok(None));
    assert_eq!(walk.next, Some("aaaaaaaa1".to_string()));
}

#[test]
fn log_with_a_given_date() {
    let store = history();
    let mut walk = log_start(Some("bbbbbbbb2".to_string()), None);
    let date = Some("some day".to_string());
    let shown = vcs::history::log_with_date(&mut walk, &store[0].1, false, date);
    assert_eq!(
        shown,
        Ok(Some(LogEntry::Full {
            hash: "bbbbbbbb2".to_string(),
            author: "Ann".to_string(),
            date: "some day".to_string(),
            message: vec!["first".to_string()],
        }))
    );
    assert_eq!(walk.next, None);
    assert_eq!(walk.count, 1);
    let mut walk = log_start(Some("bbbbbbbb2".to_string()), None);
    assert_eq!(
        vcs::history::log_with_date(&mut walk, &store[0].1, false, None),
        Err(RepoError::InvalidDate)
    );
    assert_eq!(walk.count, 0);
}
