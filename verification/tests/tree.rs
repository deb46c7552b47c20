use vcs::error::ObjectError;
use vcs::hash::hash_object;
use vcs::objects::{GitObject, IndexEntry, TreeEntry};
use vcs::tree::{create_tree_for_path, create_tree_from_index, StoredObject};
use vcs::walk::{get_files_from_tree, get_head_tree};

const HI: &str = "32f95c0d1244a78b2be1bab8de17906fabb2c4a8";

fn staged(path: &str, mode: &str) -> IndexEntry {
    IndexEntry { path: path.to_string(), hash: HI.to_string(), size: 2, mode: mode.to_string() }
}

fn entry(mode: &str, name: &str, hash: &str) -> TreeEntry {
    TreeEntry { mode: mode.to_string(), name: name.to_string(), hash: hash.to_string() }
}

#[test]
fn tree_of_one_file() {
    let mut out: Vec<StoredObject> = Vec::new();
    let entries = create_tree_from_index(&vec![staged("a.txt", "100644")], &mut out).unwrap();
    assert_eq!(entries, vec![entry("100644", "a.txt", HI)]);
    assert!(out.is_empty());
}

#[test]
fn tree_of_file_in_directory() {
    let mut out: Vec<StoredObject> = Vec::new();
    let entries = create_tree_from_index(&vec![staged("dir/b.txt", "100644")], &mut out).unwrap();
    assert_eq!(entries, vec![entry("40000", "dir", "af56796e1e94644e987d77164f9ac7787632caf8")]);
    assert_eq!(out.len(), 1);
    assert_eq!(out[0].hash, "af56796e1e94644e987d77164f9ac7787632caf8");
    assert_eq!(
        GitObject::deserialize(&out[0].data).unwrap(),
        GitObject::Tree(vec![entry("100644", "b.txt", HI)])
    );
    let root = GitObject::Tree(entries).serialize().unwrap();
    assert_eq!(hash_object(&root), "a867e3f720340d5fdaa222cbc24b982ab89aaaeb");
}

#[test]
fn tree_files_first_then_directories_in_order() {
    let index = vec![
        staged("z/run", "100755"),
        staged("x/y/c.txt", "100644"),
        staged("a.txt", "100644"),
        staged("x/b.txt", "100644"),
    ];
    let mut out: Vec<StoredObject> = Vec::new();
    let entries = create_tree_from_index(&index, &mut out).unwrap();
    assert_eq!(
        entries,
        vec![
            entry("100644", "a.txt", HI),
            entry("40000", "x", "ebdf3af8f436b7fcdc64792789e43e756b651dc8"),
            entry("40000", "z", "0af3b27efe56f2299113830a5568150ea9868d21"),
        ]
    );
    let written: Vec<&str> = out.iter().map(|o| o.hash.as_str()).collect();
    assert_eq!(
        written,
        vec![
            "bdefeea54f883e04892eb4d356fef09735f86d95",
            "ebdf3af8f436b7fcdc64792789e43e756b651dc8",
            "0af3b27efe56f2299113830a5568150ea9868d21",
        ]
    );
    for object in &out {
        assert_eq!(hash_object(&object.data), object.hash);
    }
    let root = GitObject::Tree(entries).serialize().unwrap();
    assert_eq!(hash_object(&root), "71708fcb51d90f8ff6f65fbb6aaae671c374b1cd");
}

#[test]
fn tree_build_is_deterministic() {
    let index =
        vec![staged("a.txt", "100644"), staged("d/e/f.txt", "100644"), staged("d/g", "100644")];
    let mut out1: Vec<StoredObject> = Vec::new();
    let mut out2: Vec<StoredObject> = Vec::new();
    let first = create_tree_from_index(&index, &mut out1).unwrap();
    let second = create_tree_from_index(&index.clone(), &mut out2).unwrap();
    assert_eq!(first, second);
    assert_eq!(out1, out2);
    assert_eq!(
        hash_object(&GitObject::Tree(first).serialize().unwrap()),
        hash_object(&GitObject::Tree(second).serialize().unwrap())
    );
}

#[test]
fn tree_for_a_directory_below_the_root() {
    let index = vec![
        staged("x/y/c.txt", "100644"),
        staged("a.txt", "100644"),
        staged("x/b.txt", "100644"),
        staged("xy/d.txt", "100644"),
    ];
    let mut out: Vec<StoredObject> = Vec::new();
    let entries = create_tree_for_path(&index, "x", &mut out).unwrap();
    assert_eq!(
        entries,
        vec![
            entry("100644", "b.txt", HI),
            entry("40000", "y", "bdefeea54f883e04892eb4d356fef09735f86d95"),
        ]
    );
    assert_eq!(out.len(), 1);
    let mut out: Vec<StoredObject> = Vec::new();
    assert_eq!(
        create_tree_for_path(&index, "x/y/", &mut out).unwrap(),
        vec![entry("100644", "c.txt", HI)]
    );
    assert_eq!(create_tree_for_path(&index, "nowhere", &mut out).unwrap(), vec![]);
    assert!(out.is_empty());
}

#[test]
fn tree_ignores_empty_segments() {
    let mut out: Vec<StoredObject> = Vec::new();
    let entries = create_tree_from_index(&vec![staged("/dir//b.txt", "100644")], &mut out).unwrap();
    assert_eq!(entries, vec![entry("40000", "dir", "af56796e1e94644e987d77164f9ac7787632caf8")]);
}

#[test]
fn tree_keeps_added_objects_behind_those_already_there() {
    let mut out = vec![StoredObject { hash: "x".to_string(), data: vec![1, 2, 3] }];
    create_tree_from_index(&vec![staged("dir/b.txt", "100644")], &mut out).unwrap();
    assert_eq!(out.len(), 2);
    assert_eq!(out[0].hash, "x");
}

#[test]
fn tree_with_bad_digest_below_fails() {
    let mut bad = staged("dir/b.txt", "100644");
    bad.hash = "not hex".to_string();
    let mut out: Vec<StoredObject> = Vec::new();
    assert_eq!(create_tree_from_index(&vec![bad.clone()], &mut out), Err(ObjectError::InvalidHash));
    bad.path = "b.txt".to_string();
    let entries = create_tree_from_index(&vec![bad], &mut out).unwrap();
    assert_eq!(entries[0].hash, "not hex");
}

#[test]
fn head_tree_is_the_tree_of_a_commit() {
    let commit = GitObject::Commit(vcs::objects::Commit {
        tree: "abc".to_string(),
        parent: None,
        author: "a".to_string(),
        message: "m".to_string(),
        timestamp: 1,
    });
    assert_eq!(get_head_tree(Some(&commit)), Some("abc".to_string()));
    assert_eq!(get_head_tree(Some(&GitObject::Blob(vec![]))), None);
    assert_eq!(get_head_tree(None), None);
}

#[test]
fn walk_without_tree_is_over_at_once() {
    let walk = get_files_from_tree(&None);
    assert_eq!(walk.next_hash(), None);
    assert!(walk.files.is_empty());
}

#[test]
fn walk_flattens_nested_trees_in_order() {
    let mut walk = get_files_from_tree(&Some("root".to_string()));
    assert_eq!(walk.next_hash(), Some("root".to_string()));
    walk.collect_files_from_tree(GitObject::Tree(vec![
        entry("100644", "a.txt", "h1"),
        entry("40000", "x", "tx"),
        entry("100644", "z.txt", "h4"),
        entry("40000", "w\\v", "tw"),
    ]));
    assert_eq!(walk.next_hash(), Some("tx".to_string()));
    assert_eq!(walk.files, vec![("a.txt".to_string(), "h1".to_string())]);
    walk.collect_files_from_tree(GitObject::Tree(vec![
        entry("40000", "y", "ty"),
        entry("100644", "b.txt", "h2"),
    ]));
    assert_eq!(walk.next_hash(), Some("ty".to_string()));
    walk.collect_files_from_tree(GitObject::Tree(vec![entry("100755", "c.txt", "h3")]));
    assert_eq!(walk.next_hash(), Some("tw".to_string()));
    walk.collect_files_from_tree(GitObject::Blob(vec![1]));
    assert_eq!(walk.next_hash(), None);
    assert_eq!(
        walk.files,
        vec![
            ("a.txt".to_string(), "h1".to_string()),
            ("x/y/c.txt".to_string(), "h3".to_string()),
            ("x/b.txt".to_string(), "h2".to_string()),
            ("z.txt".to_string(), "h4".to_string()),
        ]
    );
    let before = walk.clone();
    walk.collect_files_from_tree(GitObject::Tree(vec![entry("100644", "late", "h9")]));
    assert_eq!(walk, before);
}

#[test]
fn walk_reads_back_what_the_builder_stored() {
    let index = vec![
        staged("x/y/c.txt", "100644"),
        staged("a.txt", "100644"),
        staged("x/b.txt", "100644"),
    ];
    let mut out: Vec<StoredObject> = Vec::new();
    let entries = create_tree_from_index(&index, &mut out).unwrap();
    let root = GitObject::Tree(entries).serialize().unwrap();
    out.push(StoredObject { hash: hash_object(&root), data: root.clone() });
    let mut walk = get_files_from_tree(&Some(hash_object(&root)));
    while let Some(hash) = walk.next_hash() {
        let stored = out.iter().find(|o| o.hash == hash).unwrap();
        walk.collect_files_from_tree(GitObject::deserialize(&stored.data).unwrap());
    }
    let mut files = walk.files.clone();
    files.sort();
    assert_eq!(
        files,
        vec![
            ("a.txt".to_string(), HI.to_string()),
            ("x/b.txt".to_string(), HI.to_string()),
            ("x/y/c.txt".to_string(), HI.to_string()),
        ]
    );
}
