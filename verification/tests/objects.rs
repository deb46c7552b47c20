use vcs::error::{ErrorKind, ObjectError};
use vcs::hash::hash_object;
use vcs::objects::{hash_blob, Commit, GitObject, TreeEntry};

fn entry(mode: &str, name: &str, hash: &str) -> TreeEntry {
    TreeEntry { mode: mode.to_string(), name: name.to_string(), hash: hash.to_string() }
}

fn sample_commit(parent: Option<&str>, message: &str) -> Commit {
    Commit {
        tree: "959186c87f11cedbc03fb0aa728575ce3dbf3335".to_string(),
        parent: parent.map(|p| p.to_string()),
        author: "Ann <ann@example.com>".to_string(),
        message: message.to_string(),
        timestamp: 1700000000,
    }
}

#[test]
fn hash_of_known_bytes() {
    assert_eq!(hash_object(b"hello"), "aaf4c61ddcc5e8a2dabede0f3b482cd9aea9434d");
    assert_eq!(hash_object(b""), "da39a3ee5e6b4b0d3255bfef95601890afd80709");
}

#[test]
fn hash_is_the_same_for_the_same_bytes() {
    let a = hash_object(b"some content");
    let b = hash_object(&b"some content".to_vec());
    assert_eq!(a, b);
    assert_eq!(a.len(), 40);
    assert_ne!(a, hash_object(b"some content "));
}

#[test]
fn blob_bytes_are_header_and_payload() {
    let bytes = GitObject::Blob(b"hi".to_vec()).serialize().unwrap();
    assert_eq!(bytes, b"blob 2\0hi".to_vec());
    assert_eq!(hash_blob(&b"hi".to_vec()), "32f95c0d1244a78b2be1bab8de17906fabb2c4a8");
}

#[test]
fn empty_blob_round_trips() {
    let bytes = GitObject::Blob(Vec::new()).serialize().unwrap();
    assert_eq!(bytes, b"blob 0\0".to_vec());
    assert_eq!(GitObject::deserialize(&bytes).unwrap(), GitObject::Blob(Vec::new()));
}

#[test]
fn blob_round_trips_with_any_bytes() {
    let mut payload: Vec<u8> = Vec::new();
    for i in 0..600u32 {
        payload.push((i % 256) as u8);
    }
    payload.extend_from_slice(b"\0\0 \n\r\n");
    let bytes = GitObject::Blob(payload.clone()).serialize().unwrap();
    assert_eq!(&bytes[..9], b"blob 606\0");
    assert_eq!(GitObject::deserialize(&bytes).unwrap(), GitObject::Blob(payload));
}

#[test]
fn blob_length_in_header_is_not_checked() {
    let obj = GitObject::deserialize(b"blob 999\0abc").unwrap();
    assert_eq!(obj, GitObject::Blob(b"abc".to_vec()));
    let obj = GitObject::deserialize(b"  blob \t +7 \0abc").unwrap();
    assert_eq!(obj, GitObject::Blob(b"abc".to_vec()));
}

#[test]
fn tree_bytes_hold_the_digest_as_raw_bytes() {
    let tree = GitObject::Tree(vec![entry(
        "100644",
        "a.txt",
        "32f95c0d1244a78b2be1bab8de17906fabb2c4a8",
    )]);
    let bytes = tree.serialize().unwrap();
    let mut expected = b"tree 33\0100644 a.txt\0".to_vec();
    expected.extend_from_slice(&[
        0x32, 0xf9, 0x5c, 0x0d, 0x12, 0x44, 0xa7, 0x8b, 0x2b, 0xe1, 0xba, 0xb8, 0xde, 0x17, 0x90,
        0x6f, 0xab, 0xb2, 0xc4, 0xa8,
    ]);
    assert_eq!(bytes, expected);
    assert_eq!(hash_object(&bytes), "959186c87f11cedbc03fb0aa728575ce3dbf3335");
}

#[test]
fn tree_round_trips_in_order() {
    let entries = vec![
        entry("100644", "z.txt", "32f95c0d1244a78b2be1bab8de17906fabb2c4a8"),
        entry("40000", "dir", "af56796e1e94644e987d77164f9ac7787632caf8"),
        entry("100755", "a b.sh", "0abaeaa9932cc3322604c196b22c4db5c33aa548"),
        entry("100644", "caf\u{e9}.txt", "da39a3ee5e6b4b0d3255bfef95601890afd80709"),
    ];
    let bytes = GitObject::Tree(entries.clone()).serialize().unwrap();
    assert_eq!(GitObject::deserialize(&bytes).unwrap(), GitObject::Tree(entries));
}

#[test]
fn empty_tree_round_trips() {
    let bytes = GitObject::Tree(Vec::new()).serialize().unwrap();
    assert_eq!(bytes, b"tree 0\0".to_vec());
    assert_eq!(GitObject::deserialize(&bytes).unwrap(), GitObject::Tree(Vec::new()));
}

#[test]
fn tree_with_upper_case_digest_comes_back_in_lower_case() {
    let tree = GitObject::Tree(vec![entry(
        "100644",
        "a",
        "32F95C0D1244A78B2BE1BAB8DE17906FABB2C4A8",
    )]);
    let bytes = tree.serialize().unwrap();
    let back = GitObject::deserialize(&bytes).unwrap();
    assert_eq!(
        back,
        GitObject::Tree(vec![entry("100644", "a", "32f95c0d1244a78b2be1bab8de17906fabb2c4a8")])
    );
}

#[test]
fn tree_with_bad_digest_cannot_be_encoded() {
    let odd = GitObject::Tree(vec![entry("100644", "a", "abc")]);
    assert_eq!(odd.serialize(), Err(ObjectError::InvalidHash));
    let not_hex = GitObject::Tree(vec![entry("100644", "a", "zz")]);
    assert_eq!(not_hex.serialize(), Err(ObjectError::InvalidHash));
    assert_eq!(ObjectError::InvalidHash.kind(), ErrorKind::InvalidInput);
}

#[test]
fn truncated_tree_is_rejected() {
    let mut bytes = b"tree 0\0100644 a.txt\0".to_vec();
    bytes.extend_from_slice(&[1u8; 19]);
    assert_eq!(GitObject::deserialize(&bytes), Err(ObjectError::TruncatedTree));
    assert_eq!(ObjectError::TruncatedTree.kind(), ErrorKind::Corrupt);
}

#[test]
fn tree_without_separators_is_rejected() {
    assert_eq!(GitObject::deserialize(b"tree 0\0100644"), Err(ObjectError::InvalidTree));
    assert_eq!(GitObject::deserialize(b"tree 0\0100644 name"), Err(ObjectError::InvalidTree));
    assert_eq!(
        GitObject::deserialize(b"tree 0\0\xff\xfe name\0aaaaaaaaaaaaaaaaaaaa"),
        Err(ObjectError::InvalidUtf8)
    );
    assert_eq!(
        GitObject::deserialize(b"tree 0\0100644 \xff\0aaaaaaaaaaaaaaaaaaaa"),
        Err(ObjectError::InvalidUtf8)
    );
}

#[test]
fn commit_bytes_are_lines_and_message() {
    let bytes = GitObject::Commit(sample_commit(None, "first")).serialize().unwrap();
    let mut expected = b"commit 102\0tree 959186c87f11cedbc03fb0aa728575ce3dbf3335\n".to_vec();
    expected.extend_from_slice(b"author Ann <ann@example.com>\ntimestamp 1700000000\n\nfirst");
    assert_eq!(bytes, expected);
    assert_eq!(hash_object(&bytes), "7867c3f7803006e53bae805f7069551d0e6ad830");
}

#[test]
fn commit_round_trips_without_parent() {
    let commit = sample_commit(None, "first");
    let bytes = GitObject::Commit(commit.clone()).serialize().unwrap();
    assert_eq!(GitObject::deserialize(&bytes).unwrap(), GitObject::Commit(commit));
}

#[test]
fn commit_round_trips_with_parent_and_long_message() {
    let commit = sample_commit(
        Some("7867c3f7803006e53bae805f7069551d0e6ad830"),
        "\nsubject\n\nbody line one\r\nbody line two\n\n",
    );
    let bytes = GitObject::Commit(commit.clone()).serialize().unwrap();
    assert_eq!(GitObject::deserialize(&bytes).unwrap(), GitObject::Commit(commit));
}

#[test]
fn commit_round_trips_with_negative_and_extreme_timestamps() {
    for ts in [0i64, -1, i64::MIN, i64::MAX, 42] {
        let mut commit = sample_commit(None, "m");
        commit.timestamp = ts;
        commit.author = String::new();
        let bytes = GitObject::Commit(commit.clone()).serialize().unwrap();
        assert_eq!(GitObject::deserialize(&bytes).unwrap(), GitObject::Commit(commit));
    }
}

#[test]
fn commit_with_line_feed_in_author_does_not_round_trip() {
    let mut commit = sample_commit(None, "m");
    commit.author = "a\nb".to_string();
    let bytes = GitObject::Commit(commit.clone()).serialize().unwrap();
    let back = GitObject::deserialize(&bytes).unwrap();
    assert_ne!(back, GitObject::Commit(commit));
}

#[test]
fn commit_lines_may_end_with_carriage_return() {
    let obj = GitObject::deserialize(
        b"commit 0\0tree abc\r\nignored line\nauthor me\ntimestamp +12\n\r\nhello\n",
    )
    .unwrap();
    assert_eq!(
        obj,
        GitObject::Commit(Commit {
            tree: "abc".to_string(),
            parent: None,
            author: "me".to_string(),
            message: "hello\n".to_string(),
            timestamp: 12,
        })
    );
}

#[test]
fn commit_without_blank_line_has_empty_message() {
    let bytes = b"commit 0\0tree t\nparent p\nauthor a\ntimestamp -5";
    let obj = GitObject::deserialize(bytes).unwrap();
    assert_eq!(
        obj,
        GitObject::Commit(Commit {
            tree: "t".to_string(),
            parent: Some("p".to_string()),
            author: "a".to_string(),
            message: String::new(),
            timestamp: -5,
        })
    );
}

#[test]
fn commit_missing_fields_are_errors() {
    assert_eq!(
        GitObject::deserialize(b"commit 0\0author a\ntimestamp 1\n\nm"),
        Err(ObjectError::MissingTree)
    );
    assert_eq!(
        GitObject::deserialize(b"commit 0\0tree t\ntimestamp 1\n\nm"),
        Err(ObjectError::MissingAuthor)
    );
    assert_eq!(
        GitObject::deserialize(b"commit 0\0tree t\nauthor a\n\nm"),
        Err(ObjectError::MissingTimestamp)
    );
    assert_eq!(
        GitObject::deserialize(b"commit 0\0timestamp soon\n\nm"),
        Err(ObjectError::InvalidTimestamp)
    );
    assert_eq!(
        GitObject::deserialize(b"commit 0\0tree t\nauthor a\ntimestamp 9223372036854775808\n"),
        Err(ObjectError::InvalidTimestamp)
    );
    assert_eq!(GitObject::deserialize(b"commit 0\0tree \xff\n"), Err(ObjectError::InvalidUtf8));
}

#[test]
fn bad_headers_are_errors() {
    assert_eq!(GitObject::deserialize(b"blob 3 abc"), Err(ObjectError::InvalidFormat));
    assert_eq!(GitObject::deserialize(b""), Err(ObjectError::InvalidFormat));
    assert_eq!(GitObject::deserialize(b"\xff 3\0abc"), Err(ObjectError::InvalidUtf8));
    assert_eq!(GitObject::deserialize(b"blob\0abc"), Err(ObjectError::InvalidHeader));
    assert_eq!(GitObject::deserialize(b"blob 3 x\0abc"), Err(ObjectError::InvalidHeader));
    assert_eq!(GitObject::deserialize(b"\0abc"), Err(ObjectError::InvalidHeader));
    assert_eq!(GitObject::deserialize(b"blob x\0abc"), Err(ObjectError::InvalidSize));
    assert_eq!(GitObject::deserialize(b"blob -3\0abc"), Err(ObjectError::InvalidSize));
    assert_eq!(
        GitObject::deserialize(b"blob 99999999999999999999999999\0abc"),
        Err(ObjectError::InvalidSize)
    );
    assert_eq!(GitObject::deserialize(b"tag 3\0abc"), Err(ObjectError::UnknownType));
    assert_eq!(GitObject::deserialize(b"Blob 3\0abc"), Err(ObjectError::UnknownType));
}

#[test]
fn bytes_in_hexadecimal() {
    assert_eq!(vcs::hash::to_hex(&[0x00, 0x0f, 0xa0, 0xff, 0x12]), "000fa0ff12");
    assert_eq!(vcs::hash::to_hex(&[]), "");
}
