use vcs::objects::{GitObject, IndexEntry};
use vcs::staging::{
    add_file, mode_text, normalize_line_endings, reset, AddAction, PathKind,
};

fn staged(path: &str) -> IndexEntry {
    IndexEntry {
        path: path.to_string(),
        hash: "32f95c0d1244a78b2be1bab8de17906fabb2c4a8".to_string(),
        size: 2,
        mode: "100644".to_string(),
    }
}

fn paths(index: &Vec<IndexEntry>) -> Vec<String> {
    index.iter().map(|e| e.path.clone()).collect()
}

#[test]
fn line_endings_become_line_feeds() {
    assert_eq!(normalize_line_endings(&b"a\r\nb\rc\n\r".to_vec()), b"a\nb\nc\n\n".to_vec());
    assert_eq!(normalize_line_endings(&b"\r\r\n\n".to_vec()), b"\n\n\n".to_vec());
    assert_eq!(normalize_line_endings(&b"no endings".to_vec()), b"no endings".to_vec());
    assert_eq!(normalize_line_endings(&Vec::new()), Vec::<u8>::new());
}

#[test]
fn crlf_text_is_stored_with_line_feeds() {
    let mut index: Vec<IndexEntry> = Vec::new();
    let staged = add_file(&mut index, "notes.txt", &b"a\r\nb\r\n".to_vec(), "100644");
    assert_eq!(staged.blob.data, b"blob 4\0a\nb\n".to_vec());
    assert_eq!(staged.blob.hash, "422c2b7ab3b3c668038da977e4e93a5fc623169c");
    assert_eq!(
        GitObject::deserialize(&staged.blob.data).unwrap(),
        GitObject::Blob(b"a\nb\n".to_vec())
    );
    assert_eq!(index[0].size, 4);
}

#[test]
fn same_text_from_two_platforms_has_one_digest() {
    let mut unix_index: Vec<IndexEntry> = Vec::new();
    let mut windows_index: Vec<IndexEntry> = Vec::new();
    let unix = add_file(&mut unix_index, "a.txt", &b"one\ntwo\n".to_vec(), "100644");
    let windows = add_file(&mut windows_index, "a.txt", &b"one\r\ntwo\r\n".to_vec(), "100644");
    assert_eq!(unix.blob, windows.blob);
    assert_eq!(unix_index, windows_index);
}

#[test]
fn staging_hi() {
    let mut index: Vec<IndexEntry> = Vec::new();
    let staged_file = add_file(&mut index, "a.txt", &b"hi".to_vec(), "100644");
    assert_eq!(staged_file.path, "a.txt");
    assert_eq!(staged_file.blob.hash, "32f95c0d1244a78b2be1bab8de17906fabb2c4a8");
    assert_eq!(staged_file.blob.data, b"blob 2\0hi".to_vec());
    assert_eq!(index, vec![staged("a.txt")]);
}

#[test]
fn staging_again_replaces_the_entry_and_moves_it_to_the_end() {
    let mut index = vec![staged("a.txt"), staged("b.txt"), staged("a.txt"), staged("c.txt")];
    let staged_file = add_file(&mut index, "a.txt", &b"bye".to_vec(), "100755");
    assert_eq!(paths(&index), vec!["b.txt", "c.txt", "a.txt"]);
    assert_eq!(index[2].hash, "0abaeaa9932cc3322604c196b22c4db5c33aa548");
    assert_eq!(index[2].hash, staged_file.blob.hash);
    assert_eq!(index[2].size, 3);
    assert_eq!(index[2].mode, "100755");
}

#[test]
fn staging_turns_backslashes_into_slashes() {
    let mut index = vec![staged("dir/a.txt")];
    let staged_file = add_file(&mut index, "dir\\a.txt", &b"hi".to_vec(), "100644");
    assert_eq!(staged_file.path, "dir/a.txt");
    assert_eq!(paths(&index), vec!["dir/a.txt"]);
}

#[test]
fn mode_is_octal() {
    assert_eq!(mode_text(Some(33188)), "100644");
    assert_eq!(mode_text(Some(493)), "755");
    assert_eq!(mode_text(Some(0)), "0");
    assert_eq!(mode_text(Some(8)), "10");
    assert_eq!(mode_text(Some(u32::MAX)), "37777777777");
    assert_eq!(mode_text(None), "100644");
}

#[test]
fn reset_without_paths_empties_the_index() {
    let mut index = vec![staged("a.txt"), staged("b.txt")];
    let removed = reset(&mut index, &vec![]);
    assert!(index.is_empty());
    assert!(removed.is_empty());
}

#[test]
fn reset_removes_named_paths() {
    let mut index = vec![staged("a.txt"), staged("dir/b.txt"), staged("c.txt"), staged("a.txt")];
    let removed = reset(
        &mut index,
        &vec![
            Some("dir\\b.txt".to_string()),
            None,
            Some("missing".to_string()),
            Some("a.txt".to_string()),
            Some("a.txt".to_string()),
        ],
    );
    assert_eq!(paths(&index), vec!["c.txt"]);
    assert_eq!(removed, vec!["dir/b.txt".to_string(), "a.txt".to_string()]);
}

#[test]
fn reset_of_unknown_path_changes_nothing() {
    let mut index = vec![staged("a.txt")];
    let removed = reset(&mut index, &vec![Some("b.txt".to_string())]);
    assert_eq!(index, vec![staged("a.txt")]);
    assert!(removed.is_empty());
}

#[test]
fn stage_entry_replaces_by_path() {
    let mut index = vec![staged("a.txt"), staged("b.txt")];
    let mut entry = staged("a.txt");
    entry.hash = "0abaeaa9932cc3322604c196b22c4db5c33aa548".to_string();
    vcs::staging::stage_entry(&mut index, entry.clone());
    assert_eq!(index, vec![staged("b.txt"), entry]);
    vcs::staging::stage_entry(&mut index, staged("c.txt"));
    assert_eq!(paths(&index), vec!["b.txt", "a.txt", "c.txt"]);
}

#[test]
fn add_decides_by_the_kind_of_path() {
    assert_eq!(vcs::staging::add(PathKind::Missing, false), AddAction::Fail);
    assert_eq!(vcs::staging::add(PathKind::Missing, true), AddAction::Fail);
    assert_eq!(vcs::staging::add(PathKind::File, false), AddAction::Stage);
    assert_eq!(vcs::staging::add(PathKind::File, true), AddAction::Skip);
    assert_eq!(vcs::staging::add(PathKind::Directory, false), AddAction::Walk);
    assert_eq!(vcs::staging::add(PathKind::Directory, true), AddAction::Walk);
    assert_eq!(vcs::staging::add(PathKind::Other, false), AddAction::Skip);
}
