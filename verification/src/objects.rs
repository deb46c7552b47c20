//! The object model: blobs, trees and commits, and their canonical encoding.
use crate::decimal::{
    decimal, format_i64, format_u64, parse_i64, parse_signed, parse_u64, parse_unsigned,
    signed_decimal,
};
use crate::error::ObjectError;
use crate::hash::{
    hash_object, hex_bytes, hex_decode, hex_encode, hex_text, is_digest, is_hex, object_digest,
};
use crate::scan::{split_tokens, strip_cr, tokens_of};
use crate::text::{
    append_chars, chars_to_string, decode_text, find_byte, find_char, first_index, same_chars,
    starts_with, string_chars, sub_bytes, sub_chars, text_view,
};
use vstd::prelude::*;
use vstd::slice::slice_subrange;
use vstd::utf8::{decode_utf8, encode_utf8, valid_utf8};

verus! {

/// One staged file: where it lives in the work tree, the digest of its blob, the
/// length of its content and its mode.
#[derive(Debug, Clone, PartialEq, Eq)]
pub struct IndexEntry {
    pub path: String,
    pub hash: String,
    pub size: u64,
    pub mode: String,
}

/// One entry of a tree: a file or a directory below it.
#[derive(Debug, Clone, PartialEq, Eq)]
pub struct TreeEntry {
    pub mode: String,
    pub name: String,
    pub hash: String,
}

/// A snapshot: its tree, the commit before it, who made it, why and when.
#[derive(Debug, Clone, PartialEq, Eq)]
pub struct Commit {
    pub tree: String,
    pub parent: Option<String>,
    pub author: String,
    pub message: String,
    pub timestamp: i64,
}

/// A stored object.
#[derive(Debug, Clone, PartialEq, Eq)]
pub enum GitObject {
    Blob(Vec<u8>),
    Tree(Vec<TreeEntry>),
    Commit(Commit),
}

/// What an `IndexEntry` holds.
pub struct IndexEntryView {
    pub path: Seq<char>,
    pub hash: Seq<char>,
    pub size: nat,
    pub mode: Seq<char>,
}

/// What a `TreeEntry` holds.
pub struct TreeEntryView {
    pub mode: Seq<char>,
    pub name: Seq<char>,
    pub hash: Seq<char>,
}

/// What a `Commit` holds.
pub struct CommitView {
    pub tree: Seq<char>,
    pub parent: Option<Seq<char>>,
    pub author: Seq<char>,
    pub message: Seq<char>,
    pub timestamp: int,
}

/// What a `GitObject` holds.
pub enum ObjectView {
    Blob(Seq<u8>),
    Tree(Seq<TreeEntryView>),
    Commit(CommitView),
}

impl View for IndexEntry {
    type V = IndexEntryView;

    open spec fn view(&self) -> IndexEntryView {
        IndexEntryView {
            path: self.path@,
            hash: self.hash@,
            size: self.size as nat,
            mode: self.mode@,
        }
    }
}

impl View for TreeEntry {
    type V = TreeEntryView;

    open spec fn view(&self) -> TreeEntryView {
        TreeEntryView { mode: self.mode@, name: self.name@, hash: self.hash@ }
    }
}

impl View for Commit {
    type V = CommitView;

    open spec fn view(&self) -> CommitView {
        CommitView {
            tree: self.tree@,
            parent: match self.parent {
                Some(p) => Some(p@),
                None => None,
            },
            author: self.author@,
            message: self.message@,
            timestamp: self.timestamp as int,
        }
    }
}

impl View for GitObject {
    type V = ObjectView;

    open spec fn view(&self) -> ObjectView {
        match self {
            GitObject::Blob(data) => ObjectView::Blob(data@),
            GitObject::Tree(entries) => ObjectView::Tree(tree_view(entries@)),
            GitObject::Commit(commit) => ObjectView::Commit(commit@),
        }
    }
}

/// What a list of tree entries holds, entry by entry.
pub open spec fn tree_view(entries: Seq<TreeEntry>) -> Seq<TreeEntryView> {
    Seq::new(entries.len(), |i: int| entries[i]@)
}

/// What a list of index entries holds, entry by entry.
pub open spec fn index_view(entries: Seq<IndexEntry>) -> Seq<IndexEntryView> {
    Seq::new(entries.len(), |i: int| entries[i]@)
}

/// The tag of a blob.
pub open spec fn blob_tag() -> Seq<char> {
    seq!['b', 'l', 'o', 'b']
}

/// The tag of a tree.
pub open spec fn tree_tag() -> Seq<char> {
    seq!['t', 'r', 'e', 'e']
}

/// The tag of a commit.
pub open spec fn commit_tag() -> Seq<char> {
    seq!['c', 'o', 'm', 'm', 'i', 't']
}

/// The header in front of `len` bytes of content: the tag, a space, the length in
/// decimal and a NUL.
pub open spec fn header_text(tag: Seq<char>, len: nat) -> Seq<char> {
    tag + seq![' '] + decimal(len) + seq!['\0']
}

/// The content behind its header.
pub open spec fn framed(tag: Seq<char>, content: Seq<u8>) -> Seq<u8> {
    encode_utf8(header_text(tag, content.len())) + content
}

/// One tree entry in bytes: the mode, a space, the name, a NUL, and the digest
/// as raw bytes.
pub open spec fn tree_entry_bytes(e: TreeEntryView) -> Seq<u8> {
    encode_utf8(e.mode) + seq![0x20u8] + encode_utf8(e.name) + seq![0u8] + hex_bytes(e.hash)
}

/// The entries of a tree in bytes, one after the other.
pub open spec fn tree_bytes(entries: Seq<TreeEntryView>) -> Seq<u8>
    decreases entries.len(),
{
    if entries.len() == 0 {
        Seq::empty()
    } else {
        tree_entry_bytes(entries[0]) + tree_bytes(entries.drop_first())
    }
}

/// The key word that starts the line of the tree.
pub open spec fn tree_key() -> Seq<char> {
    seq!['t', 'r', 'e', 'e', ' ']
}

/// The key word that starts the line of the parent.
pub open spec fn parent_key() -> Seq<char> {
    seq!['p', 'a', 'r', 'e', 'n', 't', ' ']
}

/// The key word that starts the line of the author.
pub open spec fn author_key() -> Seq<char> {
    seq!['a', 'u', 't', 'h', 'o', 'r', ' ']
}

/// The key word that starts the line of the timestamp.
pub open spec fn timestamp_key() -> Seq<char> {
    seq!['t', 'i', 'm', 'e', 's', 't', 'a', 'm', 'p', ' ']
}

/// The text of a commit: a line each for the tree, the parent if there is one,
/// the author and the timestamp, a blank line, and the message as it is.
pub open spec fn commit_text(c: CommitView) -> Seq<char> {
    tree_key() + c.tree + seq!['\n'] + (match c.parent {
        Some(p) => parent_key() + p + seq!['\n'],
        None => Seq::empty(),
    }) + author_key() + c.author + seq!['\n'] + timestamp_key() + signed_decimal(c.timestamp)
        + seq!['\n', '\n'] + c.message
}

/// Whether every entry has a digest that can be turned into bytes.
pub open spec fn all_hashes_hex(entries: Seq<TreeEntryView>) -> bool {
    forall|i: int| 0 <= i < entries.len() ==> is_hex(#[trigger] entries[i].hash)
}

/// The canonical bytes of an object, or why there are none.
pub open spec fn serialized(o: ObjectView) -> Result<Seq<u8>, ObjectError> {
    match o {
        ObjectView::Blob(data) => Ok(framed(blob_tag(), data)),
        ObjectView::Tree(entries) => if all_hashes_hex(entries) {
            Ok(framed(tree_tag(), tree_bytes(entries)))
        } else {
            Err(ObjectError::InvalidHash)
        },
        ObjectView::Commit(c) => Ok(framed(commit_tag(), encode_utf8(commit_text(c)))),
    }
}

/// Adding an entry at the end adds its bytes at the end.
pub proof fn lemma_tree_bytes_push(entries: Seq<TreeEntryView>, e: TreeEntryView)
    ensures
        tree_bytes(entries.push(e)) == tree_bytes(entries) + tree_entry_bytes(e),
    decreases entries.len(),
{
    let all = entries.push(e);
    if entries.len() == 0 {
        assert(all.drop_first() =~= Seq::<TreeEntryView>::empty());
        assert(tree_bytes(all.drop_first()) =~= Seq::<u8>::empty());
        assert(tree_bytes(all) =~= tree_entry_bytes(e));
        assert(tree_bytes(entries) + tree_entry_bytes(e) =~= tree_entry_bytes(e));
    } else {
        lemma_tree_bytes_push(entries.drop_first(), e);
        assert(all.drop_first() =~= entries.drop_first().push(e));
        assert(tree_bytes(all) =~= tree_bytes(entries) + tree_entry_bytes(e));
    }
}

/// Puts the header for `content` in front of it.
fn frame(tag: &Vec<char>, content: &Vec<u8>) -> (r: Vec<u8>)
    ensures
        r@ == framed(tag@, content@),
{
    let mut head: Vec<char> = Vec::new();
    append_chars(&mut head, tag);
    head.push(' ');
    let digits = format_u64(content.len() as u64);
    append_chars(&mut head, &digits);
    head.push('\0');
    assert(head@ =~= header_text(tag@, content@.len()));
    let head_text = chars_to_string(&head);
    let mut r: Vec<u8> = Vec::new();
    r.extend_from_slice(head_text.as_str().as_bytes());
    r.extend_from_slice(content.as_slice());
    r
}

/// The digest under which a blob with the content `data` is stored.
pub open spec fn blob_digest(data: Seq<u8>) -> Seq<char> {
    object_digest(framed(blob_tag(), data))
}

/// The canonical bytes of a blob with the content `data`.
pub fn blob_bytes(data: &Vec<u8>) -> (r: Vec<u8>)
    ensures
        r@ == framed(blob_tag(), data@),
{
    let tag = vec!['b', 'l', 'o', 'b'];
    assert(tag@ =~= blob_tag());
    frame(&tag, data)
}

/// The canonical bytes of the commit `c`.
pub fn commit_bytes(c: &Commit) -> (r: Vec<u8>)
    ensures
        r@ == framed(commit_tag(), encode_utf8(commit_text(c@))),
{
    let text = chars_to_string(&commit_chars(c));
    let mut data: Vec<u8> = Vec::new();
    data.extend_from_slice(text.as_str().as_bytes());
    assert(data@ =~= encode_utf8(commit_text(c@)));
    let tag = vec!['c', 'o', 'm', 'm', 'i', 't'];
    assert(tag@ =~= commit_tag());
    frame(&tag, &data)
}

/// The digest under which a blob with the content `data` is stored: the digest
/// of its canonical bytes.
pub fn hash_blob(data: &Vec<u8>) -> (r: String)
    ensures
        r@ == blob_digest(data@),
        is_digest(r@),
{
    hash_object(blob_bytes(data).as_slice())
}

/// The text of `c`, as `commit_text` defines it.
pub(crate) fn commit_chars(c: &Commit) -> (r: Vec<char>)
    ensures
        r@ == commit_text(c@),
{
    let mut t: Vec<char> = vec!['t', 'r', 'e', 'e', ' '];
    append_chars(&mut t, &string_chars(c.tree.as_str()));
    t.push('\n');
    match &c.parent {
        Some(p) => {
            append_chars(&mut t, &vec!['p', 'a', 'r', 'e', 'n', 't', ' ']);
            append_chars(&mut t, &string_chars(p.as_str()));
            t.push('\n');
        },
        None => {},
    }
    append_chars(&mut t, &vec!['a', 'u', 't', 'h', 'o', 'r', ' ']);
    append_chars(&mut t, &string_chars(c.author.as_str()));
    t.push('\n');
    append_chars(&mut t, &vec!['t', 'i', 'm', 'e', 's', 't', 'a', 'm', 'p', ' ']);
    append_chars(&mut t, &format_i64(c.timestamp));
    t.push('\n');
    t.push('\n');
    append_chars(&mut t, &string_chars(c.message.as_str()));
    assert(t@ =~= commit_text(c@));
    t
}

impl GitObject {
    /// The canonical bytes of this object: a header that names its kind and the
    /// length of its content, then the content. It fails only for a tree with an
    /// entry whose digest is not hexadecimal.
    pub fn serialize(&self) -> (r: Result<Vec<u8>, ObjectError>)
        ensures
            r matches Ok(bytes) ==> serialized(self@) == Ok::<Seq<u8>, ObjectError>(bytes@),
            r matches Err(e) ==> serialized(self@) == Err::<Seq<u8>, ObjectError>(e),
    {
        match self {
            GitObject::Blob(data) => Ok(blob_bytes(data)),
            GitObject::Tree(entries) => {
                let mut data: Vec<u8> = Vec::new();
                let mut i: usize = 0;
                let ghost views = tree_view(entries@);
                assert(views.take(0) =~= Seq::<TreeEntryView>::empty());
                while i < entries.len()
                    invariant
                        i <= entries.len(),
                        views == tree_view(entries@),
                        self@ == ObjectView::Tree(views),
                        all_hashes_hex(views.take(i as int)),
                        data@ == tree_bytes(views.take(i as int)),
                    decreases entries.len() - i,
                {
                    let entry = &entries[i];
                    let ghost before = data@;
                    data.extend_from_slice(entry.mode.as_str().as_bytes());
                    data.push(0x20u8);
                    data.extend_from_slice(entry.name.as_str().as_bytes());
                    data.push(0u8);
                    match hex_decode(entry.hash.as_str()) {
                        Ok(raw) => {
                            data.extend_from_slice(raw.as_slice());
                        },
                        Err(_) => {
                            assert(!is_hex(views[i as int].hash));
                            assert(!all_hashes_hex(views));
                            return Err(ObjectError::InvalidHash);
                        },
                    }
                    proof {
                        assert(data@ =~= before + tree_entry_bytes(views[i as int]));
                        lemma_tree_bytes_push(views.take(i as int), views[i as int]);
                        assert(views.take(i + 1) =~= views.take(i as int).push(views[i as int]));
                    }
                    i += 1;
                }
                assert(views.take(i as int) =~= views);
                let tag = vec!['t', 'r', 'e', 'e'];
                assert(tag@ =~= tree_tag());
                Ok(frame(&tag, &data))
            },
            GitObject::Commit(commit) => Ok(commit_bytes(commit)),
        }
    }
}

/// A result with `done` put in front of the entries it holds.
pub open spec fn with_prefix(
    done: Seq<TreeEntryView>,
    r: Result<Seq<TreeEntryView>, ObjectError>,
) -> Result<Seq<TreeEntryView>, ObjectError> {
    match r {
        Ok(rest) => Ok(done + rest),
        Err(e) => Err(e),
    }
}

/// The entry at the start of `content` and the number of bytes it takes: the
/// mode up to the first space, the name up to the next NUL, then twenty bytes of
/// digest, which are given in hexadecimal.
pub open spec fn first_entry(content: Seq<u8>) -> Result<(TreeEntryView, int), ObjectError> {
    let sp = first_index(content, 0x20u8);
    let after_mode = content.skip(sp + 1);
    let nul = first_index(after_mode, 0u8);
    let after_name = after_mode.skip(nul + 1);
    if sp >= content.len() {
        Err(ObjectError::InvalidTree)
    } else if !valid_utf8(content.take(sp)) {
        Err(ObjectError::InvalidUtf8)
    } else if nul >= after_mode.len() {
        Err(ObjectError::InvalidTree)
    } else if !valid_utf8(after_mode.take(nul)) {
        Err(ObjectError::InvalidUtf8)
    } else if after_name.len() < 20 {
        Err(ObjectError::TruncatedTree)
    } else {
        Ok(
            (
                TreeEntryView {
                    mode: decode_utf8(content.take(sp)),
                    name: decode_utf8(after_mode.take(nul)),
                    hash: hex_text(after_name.take(20)),
                },
                sp + nul + 22,
            ),
        )
    }
}

/// The entries that `content` holds, read one after the other until the bytes
/// are used up; the first entry that cannot be read decides the error.
pub open spec fn parsed_tree(content: Seq<u8>) -> Result<Seq<TreeEntryView>, ObjectError>
    decreases content.len(),
{
    if content.len() == 0 {
        Ok(Seq::empty())
    } else {
        match first_entry(content) {
            Err(e) => Err(e),
            Ok((entry, n)) => if 0 < n <= content.len() {
                with_prefix(seq![entry], parsed_tree(content.skip(n)))
            } else {
                Err(ObjectError::InvalidTree)
            },
        }
    }
}

/// The fields that the lines of a commit have given so far.
pub struct CommitFields {
    pub tree: Option<Seq<char>>,
    pub parent: Option<Seq<char>>,
    pub author: Option<Seq<char>>,
    pub timestamp: Option<int>,
}

/// The fields after one more line. A line that starts with a key word sets that
/// field to the rest of the line, a later line overriding an earlier one; any
/// other line changes nothing. A timestamp that is no 64-bit number is an error.
#[verifier::opaque]
pub open spec fn read_line(line: Seq<char>, f: CommitFields) -> Result<CommitFields, ObjectError> {
    if tree_key().is_prefix_of(line) {
        Ok(
            CommitFields {
                tree: Some(line.skip(5)),
                parent: f.parent,
                author: f.author,
                timestamp: f.timestamp,
            },
        )
    } else if parent_key().is_prefix_of(line) {
        Ok(
            CommitFields {
                tree: f.tree,
                parent: Some(line.skip(7)),
                author: f.author,
                timestamp: f.timestamp,
            },
        )
    } else if author_key().is_prefix_of(line) {
        Ok(
            CommitFields {
                tree: f.tree,
                parent: f.parent,
                author: Some(line.skip(7)),
                timestamp: f.timestamp,
            },
        )
    } else if timestamp_key().is_prefix_of(line) {
        match parse_signed(line.skip(10), i64::MIN as int, i64::MAX as int) {
            Some(n) => Ok(
                CommitFields {
                    tree: f.tree,
                    parent: f.parent,
                    author: f.author,
                    timestamp: Some(n),
                },
            ),
            None => Err(ObjectError::InvalidTimestamp),
        }
    } else {
        Ok(f)
    }
}

/// Reads the lines of `t` into `f` up to the first blank line; what follows that
/// line is the message, kept as it is. A line ends at a line feed, a carriage
/// return just before it not being part of the line. Without a blank line the
/// message is empty.
pub open spec fn read_lines(t: Seq<char>, f: CommitFields) -> Result<
    (CommitFields, Seq<char>),
    ObjectError,
>
    decreases t.len(),
{
    let k = first_index(t, '\n');
    if t.len() == 0 {
        Ok((f, Seq::empty()))
    } else if 0 <= k < t.len() {
        let line = strip_cr(t.take(k));
        if line.len() == 0 {
            Ok((f, t.skip(k + 1)))
        } else {
            match read_line(line, f) {
                Ok(g) => read_lines(t.skip(k + 1), g),
                Err(e) => Err(e),
            }
        }
    } else {
        match read_line(t, f) {
            Ok(g) => Ok((g, Seq::empty())),
            Err(e) => Err(e),
        }
    }
}

/// The commit that the text `t` describes. The tree, the author and the
/// timestamp must each have a line; without a parent line the commit has none.
pub open spec fn parsed_commit(t: Seq<char>) -> Result<CommitView, ObjectError> {
    let none = CommitFields { tree: None, parent: None, author: None, timestamp: None };
    match read_lines(t, none) {
        Err(e) => Err(e),
        Ok((f, message)) => if f.tree is None {
            Err(ObjectError::MissingTree)
        } else if f.author is None {
            Err(ObjectError::MissingAuthor)
        } else if f.timestamp is None {
            Err(ObjectError::MissingTimestamp)
        } else {
            Ok(
                CommitView {
                    tree: f.tree->0,
                    parent: f.parent,
                    author: f.author->0,
                    message: message,
                    timestamp: f.timestamp->0,
                },
            )
        },
    }
}

/// The object that the content behind a header with the tag `tag` holds.
pub open spec fn parsed_content(tag: Seq<char>, content: Seq<u8>) -> Result<
    ObjectView,
    ObjectError,
> {
    if tag == blob_tag() {
        Ok(ObjectView::Blob(content))
    } else if tag == tree_tag() {
        match parsed_tree(content) {
            Ok(entries) => Ok(ObjectView::Tree(entries)),
            Err(e) => Err(e),
        }
    } else if tag == commit_tag() {
        if !valid_utf8(content) {
            Err(ObjectError::InvalidUtf8)
        } else {
            match parsed_commit(decode_utf8(content)) {
                Ok(c) => Ok(ObjectView::Commit(c)),
                Err(e) => Err(e),
            }
        }
    } else {
        Err(ObjectError::UnknownType)
    }
}

/// The tag of a header: the header must be text made of two words, the second a
/// length that fits a machine word. The length is not held against the content.
pub open spec fn parsed_header(head: Seq<u8>) -> Result<Seq<char>, ObjectError> {
    let words = tokens_of(decode_utf8(head));
    if !valid_utf8(head) {
        Err(ObjectError::InvalidUtf8)
    } else if words.len() != 2 {
        Err(ObjectError::InvalidHeader)
    } else if parse_unsigned(words[1], usize::MAX as nat) is None {
        Err(ObjectError::InvalidSize)
    } else {
        Ok(words[0])
    }
}

/// The object that `data` encodes, or why it encodes none: the header runs up to
/// the first NUL, the content is all that follows.
pub open spec fn deserialized(data: Seq<u8>) -> Result<ObjectView, ObjectError> {
    let nul = first_index(data, 0u8);
    if nul >= data.len() {
        Err(ObjectError::InvalidFormat)
    } else {
        match parsed_header(data.take(nul)) {
            Err(e) => Err(e),
            Ok(tag) => parsed_content(tag, data.skip(nul + 1)),
        }
    }
}

/// Reads the tree entry that starts at `pos`, and says where the next one starts.
fn read_entry(content: &[u8], pos: usize) -> (r: Result<(TreeEntry, usize), ObjectError>)
    requires
        pos <= content.len(),
    ensures
        r matches Ok((entry, next)) ==> pos < next <= content.len() && first_entry(
            content@.skip(pos as int),
        ) == Ok::<(TreeEntryView, int), ObjectError>((entry@, next - pos)),
        r matches Err(e) ==> first_entry(content@.skip(pos as int)) == Err::<
            (TreeEntryView, int),
            ObjectError,
        >(e),
{
    let ghost s = content@.skip(pos as int);
    let sp = find_byte(content, pos, 0x20u8);
    if sp == content.len() {
        return Err(ObjectError::InvalidTree);
    }
    assert(s.take(sp - pos) =~= content@.subrange(pos as int, sp as int));
    let mode = match decode_text(slice_subrange(content, pos, sp)) {
        Some(m) => m,
        None => {
            return Err(ObjectError::InvalidUtf8);
        },
    };
    let ghost after_mode = s.skip(sp - pos + 1);
    assert(after_mode =~= content@.skip(sp + 1));
    let nul = find_byte(content, sp + 1, 0u8);
    if nul == content.len() {
        return Err(ObjectError::InvalidTree);
    }
    assert(after_mode.take(nul - sp - 1) =~= content@.subrange(sp + 1, nul as int));
    let name = match decode_text(slice_subrange(content, sp + 1, nul)) {
        Some(n) => n,
        None => {
            return Err(ObjectError::InvalidUtf8);
        },
    };
    let ghost after_name = after_mode.skip(nul - sp);
    assert(after_name =~= content@.skip(nul + 1));
    if content.len() - (nul + 1) < 20 {
        return Err(ObjectError::TruncatedTree);
    }
    assert(after_name.take(20) =~= content@.subrange(nul + 1, nul + 21));
    let hash = hex_encode(slice_subrange(content, nul + 1, nul + 21));
    Ok((TreeEntry { mode, name, hash }, nul + 21))
}

/// Reads the entries of a tree from its content.
fn read_tree(content: &[u8]) -> (r: Result<Vec<TreeEntry>, ObjectError>)
    ensures
        r matches Ok(entries) ==> parsed_tree(content@) == Ok::<Seq<TreeEntryView>, ObjectError>(
            tree_view(entries@),
        ),
        r matches Err(e) ==> parsed_tree(content@) == Err::<Seq<TreeEntryView>, ObjectError>(e),
{
    let mut entries: Vec<TreeEntry> = Vec::new();
    let mut pos: usize = 0;
    proof {
        assert(content@.skip(0) =~= content@);
        assert(tree_view(entries@) =~= Seq::<TreeEntryView>::empty());
        match parsed_tree(content@) {
            Ok(es) => assert(Seq::<TreeEntryView>::empty() + es =~= es),
            Err(_) => {},
        }
    }
    while pos < content.len()
        invariant
            pos <= content.len(),
            parsed_tree(content@) == with_prefix(
                tree_view(entries@),
                parsed_tree(content@.skip(pos as int)),
            ),
        decreases content.len() - pos,
    {
        let ghost rest = content@.skip(pos as int);
        let ghost done = tree_view(entries@);
        match read_entry(content, pos) {
            Err(e) => {
                return Err(e);
            },
            Ok((entry, next)) => {
                proof {
                    assert(rest.skip(next - pos) =~= content@.skip(next as int));
                    match parsed_tree(content@.skip(next as int)) {
                        Ok(es) => {
                            assert(done + (seq![entry@] + es) =~= done.push(entry@) + es);
                        },
                        Err(_) => {},
                    }
                }
                entries.push(entry);
                assert(tree_view(entries@) =~= done.push(entry@));
                pos = next;
            },
        }
    }
    proof {
        assert(tree_view(entries@) + Seq::<TreeEntryView>::empty() =~= tree_view(entries@));
    }
    Ok(entries)
}

/// The fields of a commit that its lines have given so far.
struct LineFields {
    tree: Option<Vec<char>>,
    parent: Option<Vec<char>>,
    author: Option<Vec<char>>,
    timestamp: Option<i64>,
}

impl LineFields {
    spec fn view(&self) -> CommitFields {
        CommitFields {
            tree: text_view(self.tree),
            parent: text_view(self.parent),
            author: text_view(self.author),
            timestamp: match self.timestamp {
                Some(n) => Some(n as int),
                None => None,
            },
        }
    }
}

/// Takes one line of a commit into the fields.
fn apply_line(line: &Vec<char>, f: LineFields) -> (r: Result<LineFields, ObjectError>)
    ensures
        r matches Ok(g) ==> read_line(line@, f@) == Ok::<CommitFields, ObjectError>(g@),
        r matches Err(e) ==> read_line(line@, f@) == Err::<CommitFields, ObjectError>(e),
{
    let tree_word = vec!['t', 'r', 'e', 'e', ' '];
    let parent_word = vec!['p', 'a', 'r', 'e', 'n', 't', ' '];
    let author_word = vec!['a', 'u', 't', 'h', 'o', 'r', ' '];
    let timestamp_word = vec!['t', 'i', 'm', 'e', 's', 't', 'a', 'm', 'p', ' '];
    assert(tree_word@ =~= tree_key());
    assert(parent_word@ =~= parent_key());
    assert(author_word@ =~= author_key());
    assert(timestamp_word@ =~= timestamp_key());
    let mut g = f;
    reveal(read_line);
    if starts_with(line, &tree_word) {
        g.tree = Some(sub_chars(line, 5, line.len()));
        Ok(g)
    } else if starts_with(line, &parent_word) {
        g.parent = Some(sub_chars(line, 7, line.len()));
        Ok(g)
    } else if starts_with(line, &author_word) {
        g.author = Some(sub_chars(line, 7, line.len()));
        Ok(g)
    } else if starts_with(line, &timestamp_word) {
        let digits = sub_chars(line, 10, line.len());
        match parse_i64(&digits) {
            Some(n) => {
                g.timestamp = Some(n);
                Ok(g)
            },
            None => Err(ObjectError::InvalidTimestamp),
        }
    } else {
        Ok(g)
    }
}

/// Reads the lines of a commit up to the blank line, and the message behind it.
fn read_fields(text: &Vec<char>) -> (r: Result<(LineFields, Vec<char>), ObjectError>)
    ensures
        r matches Ok((f, message)) ==> read_lines(
            text@,
            CommitFields { tree: None, parent: None, author: None, timestamp: None },
        ) == Ok::<(CommitFields, Seq<char>), ObjectError>((f@, message@)),
        r matches Err(e) ==> read_lines(
            text@,
            CommitFields { tree: None, parent: None, author: None, timestamp: None },
        ) == Err::<(CommitFields, Seq<char>), ObjectError>(e),
{
    let ghost none = CommitFields { tree: None, parent: None, author: None, timestamp: None };
    let mut fields = LineFields { tree: None, parent: None, author: None, timestamp: None };
    let mut pos: usize = 0;
    assert(text@.skip(0) =~= text@);
    while pos < text.len()
        invariant
            pos <= text.len(),
            none == (CommitFields { tree: None, parent: None, author: None, timestamp: None }),
            read_lines(text@, none) == read_lines(text@.skip(pos as int), fields@),
        decreases text.len() - pos,
    {
        let ghost rest = text@.skip(pos as int);
        let k = find_char(text, pos, '\n');
        if k < text.len() {
            let end = if k > pos && text[k - 1] == '\r' {
                k - 1
            } else {
                k
            };
            proof {
                let raw = rest.take(k - pos);
                assert(raw =~= text@.subrange(pos as int, k as int));
                assert(strip_cr(raw) =~= text@.subrange(pos as int, end as int));
                assert(rest.skip(k - pos + 1) =~= text@.skip(k + 1));
            }
            if end == pos {
                let message = sub_chars(text, k + 1, text.len());
                assert(message@ =~= text@.skip(k + 1));
                return Ok((fields, message));
            }
            let line = sub_chars(text, pos, end);
            match apply_line(&line, fields) {
                Ok(g) => {
                    fields = g;
                },
                Err(e) => {
                    return Err(e);
                },
            }
            pos = k + 1;
        } else {
            let line = sub_chars(text, pos, text.len());
            assert(line@ =~= rest);
            match apply_line(&line, fields) {
                Ok(g) => {
                    return Ok((g, Vec::new()));
                },
                Err(e) => {
                    return Err(e);
                },
            }
        }
    }
    Ok((fields, Vec::new()))
}

/// Reads a commit from its text.
fn read_commit(text: &Vec<char>) -> (r: Result<Commit, ObjectError>)
    ensures
        r matches Ok(c) ==> parsed_commit(text@) == Ok::<CommitView, ObjectError>(c@),
        r matches Err(e) ==> parsed_commit(text@) == Err::<CommitView, ObjectError>(e),
{
    match read_fields(text) {
        Err(e) => Err(e),
        Ok((f, message)) => {
            let tree = match &f.tree {
                Some(t) => chars_to_string(t),
                None => {
                    return Err(ObjectError::MissingTree);
                },
            };
            let author = match &f.author {
                Some(a) => chars_to_string(a),
                None => {
                    return Err(ObjectError::MissingAuthor);
                },
            };
            let timestamp = match f.timestamp {
                Some(n) => n,
                None => {
                    return Err(ObjectError::MissingTimestamp);
                },
            };
            let parent = match &f.parent {
                Some(p) => Some(chars_to_string(p)),
                None => None,
            };
            Ok(Commit { tree, parent, author, message: chars_to_string(&message), timestamp })
        },
    }
}

/// Reads the tag from the bytes of a header.
fn read_header(head: &[u8]) -> (r: Result<Vec<char>, ObjectError>)
    ensures
        r matches Ok(tag) ==> parsed_header(head@) == Ok::<Seq<char>, ObjectError>(tag@),
        r matches Err(e) ==> parsed_header(head@) == Err::<Seq<char>, ObjectError>(e),
{
    let text = match decode_text(head) {
        Some(t) => t,
        None => {
            return Err(ObjectError::InvalidUtf8);
        },
    };
    let mut words = split_tokens(&string_chars(text.as_str()));
    if words.len() != 2 {
        return Err(ObjectError::InvalidHeader);
    }
    let limit: u64 = usize::MAX as u64;
    if parse_u64(&words[1], limit).is_none() {
        return Err(ObjectError::InvalidSize);
    }
    let tag = sub_chars(&words[0], 0, words[0].len());
    assert(tag@ =~= words@[0]@);
    Ok(tag)
}

impl GitObject {
    /// Reads an object from its canonical bytes. The header runs up to the first
    /// NUL and must name the kind of object and a length; the length is not held
    /// against the content, which is all that follows the NUL.
    pub fn deserialize(data: &[u8]) -> (r: Result<GitObject, ObjectError>)
        ensures
            r matches Ok(o) ==> deserialized(data@) == Ok::<ObjectView, ObjectError>(o@),
            r matches Err(e) ==> deserialized(data@) == Err::<ObjectView, ObjectError>(e),
    {
        let nul = find_byte(data, 0, 0u8);
        assert(data@.skip(0) =~= data@);
        if nul == data.len() {
            return Err(ObjectError::InvalidFormat);
        }
        assert(data@.take(nul as int) =~= data@.subrange(0, nul as int));
        let tag = match read_header(slice_subrange(data, 0, nul)) {
            Ok(t) => t,
            Err(e) => {
                return Err(e);
            },
        };
        let content = slice_subrange(data, nul + 1, data.len());
        assert(content@ =~= data@.skip(nul + 1));
        let blob_word = vec!['b', 'l', 'o', 'b'];
        let tree_word = vec!['t', 'r', 'e', 'e'];
        let commit_word = vec!['c', 'o', 'm', 'm', 'i', 't'];
        assert(blob_word@ =~= blob_tag());
        assert(tree_word@ =~= tree_tag());
        assert(commit_word@ =~= commit_tag());
        if same_chars(&tag, &blob_word) {
            let payload = sub_bytes(content, 0, content.len());
            assert(payload@ =~= content@);
            Ok(GitObject::Blob(payload))
        } else if same_chars(&tag, &tree_word) {
            match read_tree(content) {
                Ok(entries) => Ok(GitObject::Tree(entries)),
                Err(e) => Err(e),
            }
        } else if same_chars(&tag, &commit_word) {
            let text = match decode_text(content) {
                Some(t) => t,
                None => {
                    return Err(ObjectError::InvalidUtf8);
                },
            };
            match read_commit(&string_chars(text.as_str())) {
                Ok(c) => Ok(GitObject::Commit(c)),
                Err(e) => Err(e),
            }
        } else {
            Err(ObjectError::UnknownType)
        }
    }
}

} // verus!
