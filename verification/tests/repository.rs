use vcs::error::{ErrorKind, ObjectError, RepoError};
use vcs::objects::{GitObject, IndexEntry, TreeEntry};
use vcs::repository::{parse_head, HeadRef, Repository};
use vcs::text::can_cut;

fn repo() -> Repository {
    Repository::new("/work".to_string()).unwrap()
}

#[test]
fn new_repository_has_its_files_below_the_work_tree() {
    let r = repo();
    assert_eq!(r.worktree, "/work");
    assert_eq!(r.vcs_dir, "/work/.vcs");
    assert_eq!(Repository::new("/work/".to_string()).unwrap().vcs_dir, "/work/.vcs");
    assert_eq!(Repository::new(String::new()).unwrap().vcs_dir, ".vcs");
    assert_eq!(Repository::new("rel/dir".to_string()).unwrap().vcs_dir, "rel/dir/.vcs");
}

#[test]
fn find_takes_the_nearest_repository() {
    let ancestors = vec![
        ("/a/b/c".to_string(), false),
        ("/a/b".to_string(), true),
        ("/a".to_string(), true),
        ("/".to_string(), false),
    ];
    let found = Repository::find(&ancestors).unwrap().unwrap();
    assert_eq!(found.worktree, "/a/b");
    assert_eq!(found.vcs_dir, "/a/b/.vcs");
    assert_eq!(Repository::get_repo(&ancestors).unwrap(), found);
}

#[test]
fn find_without_repository() {
    let ancestors = vec![("/a/b".to_string(), false), ("/a".to_string(), false)];
    assert_eq!(Repository::find(&ancestors), Ok(None));
    assert_eq!(Repository::get_repo(&ancestors), Err(RepoError::NotARepository));
    assert_eq!(Repository::get_repo(&vec![]), Err(RepoError::NotARepository));
    assert_eq!(RepoError::NotARepository.kind(), ErrorKind::NotFound);
}

#[test]
fn create_plans_the_layout() {
    let plan = Repository::create("/work".to_string(), false).unwrap();
    assert_eq!(plan.repo, repo());
    assert_eq!(plan.dirs, vec!["/work/.vcs", "/work/.vcs/objects", "/work/.vcs/refs/heads"]);
    assert_eq!(plan.files.len(), 2);
    assert_eq!(plan.files[0].path, "/work/.vcs/HEAD");
    assert_eq!(plan.files[0].content, "ref: refs/heads/master\n");
    assert_eq!(plan.files[1].path, "/work/.vcs/index");
    assert_eq!(plan.files[1].content, "[]");
}

#[test]
fn create_refuses_an_existing_repository() {
    assert_eq!(Repository::create("/work".to_string(), true), Err(RepoError::RepositoryExists));
    assert_eq!(RepoError::RepositoryExists.kind(), ErrorKind::InvalidInput);
}

#[test]
fn object_path_is_sharded_by_the_first_two_digits() {
    assert_eq!(
        repo().object_path("32f95c0d1244a78b2be1bab8de17906fabb2c4a8"),
        "/work/.vcs/objects/32/f95c0d1244a78b2be1bab8de17906fabb2c4a8"
    );
    assert_eq!(repo().object_path("abc"), "/work/.vcs/objects/ab/c");
    assert_eq!(repo().object_path("ab"), "/work/.vcs/objects/ab/");
    assert_eq!(repo().object_path("\u{e9}x"), "/work/.vcs/objects/\u{e9}/x");
}

#[test]
fn cutting_is_possible_between_characters_only() {
    assert!(can_cut("abc", 2));
    assert!(can_cut("ab", 2));
    assert!(!can_cut("a", 2));
    assert!(!can_cut("", 2));
    assert!(can_cut("", 0));
    assert!(can_cut("\u{e9}x", 2));
    assert!(!can_cut("a\u{e9}", 2));
    assert!(!can_cut("\u{20ac}", 2));
    assert!(can_cut("\u{20ac}", 3));
    assert!(can_cut("\u{1f600}abcd", 8));
    for text in ["abc", "a", "\u{e9}x", "a\u{e9}", "\u{20ac}", "\u{1f600}abcd", ""] {
        for n in 0..10 {
            assert_eq!(can_cut(text, n), n <= text.len() && text.is_char_boundary(n));
        }
    }
}

#[test]
fn write_object_names_digest_bytes_and_file() {
    let stored = repo().write_object(&GitObject::Blob(b"hi".to_vec())).unwrap();
    assert_eq!(stored.object.hash, "32f95c0d1244a78b2be1bab8de17906fabb2c4a8");
    assert_eq!(stored.object.data, b"blob 2\0hi".to_vec());
    assert_eq!(stored.path, "/work/.vcs/objects/32/f95c0d1244a78b2be1bab8de17906fabb2c4a8");
}

#[test]
fn writing_the_same_object_twice_gives_the_same_file() {
    let first = repo().write_object(&GitObject::Blob(b"same".to_vec())).unwrap();
    let second = repo().write_object(&GitObject::Blob(b"same".to_vec())).unwrap();
    assert_eq!(first, second);
    let other = repo().write_object(&GitObject::Blob(b"other".to_vec())).unwrap();
    assert_ne!(first.path, other.path);
}

#[test]
fn write_object_fails_where_the_object_cannot_be_encoded() {
    let tree = GitObject::Tree(vec![TreeEntry {
        mode: "100644".to_string(),
        name: "a".to_string(),
        hash: "xyz".to_string(),
    }]);
    assert_eq!(repo().write_object(&tree), Err(ObjectError::InvalidHash));
}

#[test]
fn read_object_decodes_or_reports() {
    assert_eq!(Repository::read_object(None), Err(RepoError::ObjectNotFound));
    assert_eq!(RepoError::ObjectNotFound.kind(), ErrorKind::NotFound);
    assert_eq!(Repository::read_object(Some(b"blob 2\0hi")), Ok(GitObject::Blob(b"hi".to_vec())));
    assert_eq!(
        Repository::read_object(Some(b"junk")),
        Err(RepoError::Object(ObjectError::InvalidFormat))
    );
    assert_eq!(RepoError::Object(ObjectError::InvalidFormat).kind(), ErrorKind::Corrupt);
    assert_eq!(
        Repository::read_object(Some(b"what 1\0x")),
        Err(RepoError::Object(ObjectError::UnknownType))
    );
}

#[test]
fn index_entries_without_mode_get_the_regular_mode() {
    let old =
        IndexEntry { path: "a".to_string(), hash: "h".to_string(), size: 1, mode: String::new() };
    let new = IndexEntry {
        path: "b".to_string(),
        hash: "g".to_string(),
        size: 2,
        mode: "100755".to_string(),
    };
    let index = Repository::get_index(Some(vec![old.clone(), new.clone()]));
    assert_eq!(index.len(), 2);
    assert_eq!(index[0], IndexEntry { mode: "100644".to_string(), ..old });
    assert_eq!(index[1], new);
    assert!(Repository::get_index(None).is_empty());
    assert!(Repository::get_index(Some(vec![])).is_empty());
}

#[test]
fn head_is_symbolic_or_direct() {
    assert_eq!(
        parse_head("ref: refs/heads/master\n"),
        HeadRef::Symbolic("refs/heads/master".to_string())
    );
    assert_eq!(
        parse_head("  ref:   refs/heads/x  \n"),
        HeadRef::Symbolic("refs/heads/x".to_string())
    );
    assert_eq!(parse_head("abc123\n"), HeadRef::Direct("abc123".to_string()));
    assert_eq!(parse_head("ref:x"), HeadRef::Direct("ref:x".to_string()));
    assert_eq!(parse_head(""), HeadRef::Direct(String::new()));
    assert_eq!(parse_head("ref: "), HeadRef::Direct("ref:".to_string()));
}

#[test]
fn get_head_resolves_the_pointer() {
    assert_eq!(Repository::get_head(None, None), None);
    assert_eq!(Repository::get_head(None, Some("abc")), None);
    assert_eq!(Repository::get_head(Some("ref: refs/heads/master\n"), None), None);
    assert_eq!(
        Repository::get_head(Some("ref: refs/heads/master\n"), Some("abc123\n")),
        Some("abc123".to_string())
    );
    assert_eq!(Repository::get_head(Some("abc123\n"), Some("other")), Some("abc123".to_string()));
    assert_eq!(Repository::get_head(Some("\n"), None), Some(String::new()));
}

#[test]
fn head_ref_file_is_below_the_repository() {
    assert_eq!(
        repo().head_ref_file("ref: refs/heads/master\n"),
        Some("/work/.vcs/refs/heads/master".to_string())
    );
    assert_eq!(repo().head_ref_file("ref: /abs/ref"), Some("/abs/ref".to_string()));
    assert_eq!(repo().head_ref_file("abc123"), None);
}

#[test]
fn set_head_writes_the_ref_or_head() {
    let write = repo().set_head("ref: refs/heads/master\n", "abc123");
    assert_eq!(write.path, "/work/.vcs/refs/heads/master");
    assert_eq!(write.content, "abc123\n");
    let write = repo().set_head("0000\n", "abc123");
    assert_eq!(write.path, "/work/.vcs/HEAD");
    assert_eq!(write.content, "abc123\n");
}

#[test]
fn errors_have_messages() {
    assert_eq!(RepoError::ObjectNotFound.message(), "Object not found");
    assert_eq!(
        RepoError::NotARepository.message(),
        "Not a VCS repository (or any of the parent directories)"
    );
    assert_eq!(RepoError::Object(ObjectError::UnknownType).message(), "Unknown object type");
    assert_eq!(ObjectError::TruncatedTree.message(), "Invalid tree format: hash too short");
    assert_eq!(
        RepoError::NothingToCommit.message(),
        "Nothing to commit (use 'vcs add' to stage files)"
    );
}

fn reference_head(content: &str) -> HeadRef {
    let content = content.trim();
    if content.starts_with("ref: ") {
        HeadRef::Symbolic(content.strip_prefix("ref: ").unwrap().trim().to_string())
    } else {
        HeadRef::Direct(content.to_string())
    }
}

#[test]
fn head_reading_agrees_with_a_plain_reading() {
    let samples = [
        "",
        "ref: ",
        "ref: a",
        " ref:  a b \n",
        "ref:a",
        "abc\n",
        "ref: ref: x",
        "\u{a0}ref: x\u{a0}",
        "Ref: x",
    ];
    for content in samples {
        assert_eq!(parse_head(content), reference_head(content));
    }
}

#[test]
fn init_plans_what_create_plans() {
    assert_eq!(
        vcs::repository::init("/work".to_string(), false),
        Repository::create("/work".to_string(), false)
    );
    assert_eq!(vcs::repository::init("/work".to_string(), true), Err(RepoError::RepositoryExists));
}

#[test]
fn stored_objects_are_written_once() {
    let stored = repo().write_object(&GitObject::Blob(b"hi".to_vec())).unwrap();
    assert!(stored.needs_writing(false));
    assert!(!stored.needs_writing(true));
}
