//! The repository: where its files lie, and what its history pointer says.
use crate::error::{ObjectError, RepoError};
use crate::hash::{hash_object, object_digest};
use crate::objects::{deserialized, serialized, GitObject, IndexEntry, IndexEntryView, ObjectView};
use crate::scan::{trim, trimmed};
use crate::text::{
    append_chars, chars_in_bytes, chars_to_string, count_chars_in_bytes,
    lemma_chars_in_bytes_ascii, starts_with, string_chars, sub_chars,
};
use crate::tree::StoredObject;
use vstd::prelude::*;

verus! {

/// A repository: its work tree and, inside it, the directory of its own files.
#[derive(Debug, Clone, PartialEq, Eq)]
pub struct Repository {
    pub worktree: String,
    pub vcs_dir: String,
}

/// `part` below the directory `base`: `part` alone if it starts at the root or
/// `base` is empty, else `base` and `part` with one slash between them.
pub open spec fn fs_join(base: Seq<char>, part: Seq<char>) -> Seq<char> {
    if part.len() > 0 && part[0] == '/' {
        part
    } else if base.len() == 0 {
        part
    } else if base.last() == '/' {
        base + part
    } else {
        base + seq!['/'] + part
    }
}

/// `part` below the directory `base`.
pub fn join_fs(base: &Vec<char>, part: &Vec<char>) -> (r: Vec<char>)
    ensures
        r@ == fs_join(base@, part@),
{
    let mut r: Vec<char> = Vec::new();
    if part.len() > 0 && part[0] == '/' {
        append_chars(&mut r, part);
        assert(r@ =~= part@);
    } else if base.len() == 0 {
        append_chars(&mut r, part);
        assert(r@ =~= part@);
    } else {
        append_chars(&mut r, base);
        if base[base.len() - 1] != '/' {
            r.push('/');
        }
        append_chars(&mut r, part);
        assert(r@ =~= fs_join(base@, part@));
    }
    r
}

/// The name of the directory of a repository's own files.
pub open spec fn vcs_name() -> Seq<char> {
    seq!['.', 'v', 'c', 's']
}

/// The name of the directory of the stored objects.
pub open spec fn objects_name() -> Seq<char> {
    seq!['o', 'b', 'j', 'e', 'c', 't', 's']
}

/// The name of the file of the history pointer.
pub open spec fn head_name() -> Seq<char> {
    seq!['H', 'E', 'A', 'D']
}

/// The number of characters that make up the first two bytes of `hash`.
pub open spec fn shard_len(hash: Seq<char>) -> int {
    match chars_in_bytes(hash, 2) {
        Some(k) => k,
        None => 0,
    }
}

/// The file of the object with the digest `hash`: below `objects`, in the
/// directory named by the first two bytes of the digest, under the name made
/// of the rest.
pub open spec fn object_file(vcs_dir: Seq<char>, hash: Seq<char>) -> Seq<char> {
    fs_join(
        fs_join(fs_join(vcs_dir, objects_name()), hash.take(shard_len(hash))),
        hash.skip(shard_len(hash)),
    )
}

/// What the history pointer holds.
#[derive(Debug, Clone, PartialEq, Eq)]
pub enum HeadRef {
    /// The name of a file that holds the digest of the last commit.
    Symbolic(String),
    /// The digest of the last commit itself.
    Direct(String),
}

/// What a `HeadRef` holds.
pub enum HeadRefView {
    Symbolic(Seq<char>),
    Direct(Seq<char>),
}

impl View for HeadRef {
    type V = HeadRefView;

    open spec fn view(&self) -> HeadRefView {
        match self {
            HeadRef::Symbolic(s) => HeadRefView::Symbolic(s@),
            HeadRef::Direct(s) => HeadRefView::Direct(s@),
        }
    }
}

/// The words that start a symbolic history pointer.
pub open spec fn ref_key() -> Seq<char> {
    seq!['r', 'e', 'f', ':', ' ']
}

/// What the content of the file `HEAD` says, white space around it set aside:
/// behind `ref: ` the name of a file, else a digest.
pub open spec fn parsed_head(content: Seq<char>) -> HeadRefView {
    let t = trimmed(content);
    if ref_key().is_prefix_of(t) {
        HeadRefView::Symbolic(trimmed(t.skip(5)))
    } else {
        HeadRefView::Direct(t)
    }
}

/// The digest of the last commit: none without the file `HEAD`; the content of
/// `HEAD` if it is direct; else the content of the file it names, or none
/// without that file. White space around a content is set aside.
pub open spec fn head_commit(head: Option<Seq<char>>, reference: Option<Seq<char>>) -> Option<
    Seq<char>,
> {
    match head {
        None => None,
        Some(content) => match parsed_head(content) {
            HeadRefView::Direct(hash) => Some(hash),
            HeadRefView::Symbolic(_) => match reference {
                Some(r) => Some(trimmed(r)),
                None => None,
            },
        },
    }
}

/// A file to write, with its whole content.
#[derive(Debug, Clone, PartialEq, Eq)]
pub struct FileWrite {
    pub path: String,
    pub content: String,
}

/// The file that holds the digest of the last commit: the file that `HEAD`
/// names, or `HEAD` itself.
pub open spec fn head_file(vcs_dir: Seq<char>, head: Seq<char>) -> Seq<char> {
    match parsed_head(head) {
        HeadRefView::Symbolic(name) => fs_join(vcs_dir, name),
        HeadRefView::Direct(_) => fs_join(vcs_dir, head_name()),
    }
}

/// What is to be created for a new repository.
#[derive(Debug, Clone, PartialEq, Eq)]
pub struct InitPlan {
    pub repo: Repository,
    pub dirs: Vec<String>,
    pub files: Vec<FileWrite>,
}

/// Whether `plan` is the plan of a new repository with the work tree `path`:
/// the directory of its files, `objects` and `refs/heads` in it, a `HEAD` that
/// points to the branch `master`, and an empty index.
pub open spec fn is_init_plan(plan: InitPlan, path: Seq<char>) -> bool {
    let dir = fs_join(path, vcs_name());
    &&& plan.repo.worktree@ == path
    &&& plan.repo.vcs_dir@ == dir
    &&& plan.dirs@.len() == 3
    &&& plan.dirs@[0]@ == dir
    &&& plan.dirs@[1]@ == fs_join(dir, objects_name())
    &&& plan.dirs@[2]@ == fs_join(
        fs_join(dir, seq!['r', 'e', 'f', 's']),
        seq!['h', 'e', 'a', 'd', 's'],
    )
    &&& plan.files@.len() == 2
    &&& plan.files@[0].path@ == fs_join(dir, head_name())
    &&& plan.files@[0].content@ == ref_key() + seq![
        'r', 'e', 'f', 's', '/', 'h', 'e', 'a', 'd', 's', '/', 'm', 'a', 's', 't', 'e', 'r', '\n',
    ]
    &&& plan.files@[1].path@ == fs_join(dir, seq!['i', 'n', 'd', 'e', 'x'])
    &&& plan.files@[1].content@ == seq!['[', ']']
}

/// An index entry whose empty mode has become the mode of a regular file.
pub open spec fn with_mode(e: IndexEntryView) -> IndexEntryView {
    IndexEntryView {
        path: e.path,
        hash: e.hash,
        size: e.size,
        mode: if e.mode.len() == 0 {
            seq!['1', '0', '0', '6', '4', '4']
        } else {
            e.mode
        },
    }
}

/// An object with the file it is stored in.
#[derive(Debug, Clone, PartialEq, Eq)]
pub struct StoredAt {
    pub path: String,
    pub object: StoredObject,
}

/// Reads what the content of the file `HEAD` says.
pub fn parse_head(content: &str) -> (r: HeadRef)
    ensures
        r@ == parsed_head(content@),
{
    let t = trim(&string_chars(content));
    let key = vec!['r', 'e', 'f', ':', ' '];
    assert(key@ =~= ref_key());
    if starts_with(&t, &key) {
        let name = trim(&sub_chars(&t, 5, t.len()));
        assert(t@.subrange(5, t@.len() as int) =~= t@.skip(5));
        HeadRef::Symbolic(chars_to_string(&name))
    } else {
        HeadRef::Direct(chars_to_string(&t))
    }
}

impl Repository {
    /// The repository whose work tree is `path`.
    pub fn new(path: String) -> (r: Result<Repository, RepoError>)
        ensures
            r matches Ok(repo) && repo.worktree@ == path@ && repo.vcs_dir@ == fs_join(
                path@,
                vcs_name(),
            ),
    {
        let name = vec!['.', 'v', 'c', 's'];
        assert(name@ =~= vcs_name());
        let vcs_dir = chars_to_string(&join_fs(&string_chars(path.as_str()), &name));
        Ok(Repository { worktree: path, vcs_dir })
    }

    /// Finds the repository that a directory lies in. `ancestors` holds the
    /// directory and the directories above it, from the nearest on, each with
    /// whether it holds the directory of a repository's files. The result is
    /// the repository of the first that does.
    pub fn find(ancestors: &Vec<(String, bool)>) -> (r: Result<Option<Repository>, RepoError>)
        ensures
            r matches Ok(found) && match found {
                Some(repo) => exists|i: int|
                    0 <= i < ancestors@.len() && (#[trigger] ancestors@[i]).1 && (forall|j: int|
                        0 <= j < i ==> !(#[trigger] ancestors@[j]).1) && repo.worktree@
                        == ancestors@[i].0@ && repo.vcs_dir@ == fs_join(
                        ancestors@[i].0@,
                        vcs_name(),
                    ),
                None => forall|i: int| 0 <= i < ancestors@.len() ==> !(#[trigger] ancestors@[i]).1,
            },
    {
        let mut i: usize = 0;
        while i < ancestors.len()
            invariant
                i <= ancestors.len(),
                forall|j: int| 0 <= j < i ==> !(#[trigger] ancestors@[j]).1,
            decreases ancestors.len() - i,
        {
            if ancestors[i].1 {
                return match Repository::new(ancestors[i].0.clone()) {
                    Ok(repo) => Ok(Some(repo)),
                    Err(e) => Err(e),
                };
            }
            i += 1;
        }
        Ok(None)
    }

    /// The repository that a directory lies in, as `find` finds it; it is an
    /// error if there is none.
    pub fn get_repo(ancestors: &Vec<(String, bool)>) -> (r: Result<Repository, RepoError>)
        ensures
            r is Ok <==> exists|i: int| 0 <= i < ancestors@.len() && (#[trigger] ancestors@[i]).1,
            r matches Err(e) ==> e == RepoError::NotARepository,
            r matches Ok(repo) ==> exists|i: int|
                0 <= i < ancestors@.len() && (#[trigger] ancestors@[i]).1 && (forall|j: int|
                    0 <= j < i ==> !(#[trigger] ancestors@[j]).1) && repo.worktree@
                    == ancestors@[i].0@ && repo.vcs_dir@ == fs_join(ancestors@[i].0@, vcs_name()),
    {
        match Repository::find(ancestors) {
            Ok(Some(repo)) => Ok(repo),
            Ok(None) => Err(RepoError::NotARepository),
            Err(e) => Err(e),
        }
    }

    /// Plans a new repository with the work tree `path`. It fails if the
    /// directory of its files exists already. Else the plan names the
    /// directories to create, then the files: a `HEAD` that points to the branch
    /// `master`, and an empty index.
    pub fn create(path: String, exists: bool) -> (r: Result<InitPlan, RepoError>)
        ensures
            r is Ok <==> !exists,
            r matches Err(e) ==> e == RepoError::RepositoryExists,
            r matches Ok(plan) ==> is_init_plan(plan, path@),
    {
        if exists {
            return Err(RepoError::RepositoryExists);
        }
        let repo = match Repository::new(path) {
            Ok(repo) => repo,
            Err(e) => {
                return Err(e);
            },
        };
        let dir = string_chars(repo.vcs_dir.as_str());
        let objects = vec!['o', 'b', 'j', 'e', 'c', 't', 's'];
        let refs = vec!['r', 'e', 'f', 's'];
        let heads = vec!['h', 'e', 'a', 'd', 's'];
        let head = vec!['H', 'E', 'A', 'D'];
        let index = vec!['i', 'n', 'd', 'e', 'x'];
        let pointer = vec![
            'r', 'e', 'f', ':', ' ', 'r', 'e', 'f', 's', '/', 'h', 'e', 'a', 'd', 's', '/', 'm',
            'a', 's', 't', 'e', 'r', '\n',
        ];
        let nothing = vec!['[', ']'];
        proof {
            assert(objects@ =~= objects_name());
            assert(refs@ =~= seq!['r', 'e', 'f', 's']);
            assert(heads@ =~= seq!['h', 'e', 'a', 'd', 's']);
            assert(head@ =~= head_name());
            assert(index@ =~= seq!['i', 'n', 'd', 'e', 'x']);
            assert(pointer@ =~= ref_key() + seq![
                'r', 'e', 'f', 's', '/', 'h', 'e', 'a', 'd', 's', '/', 'm', 'a', 's', 't', 'e',
                'r', '\n',
            ]);
            assert(nothing@ =~= seq!['[', ']']);
        }
        let mut dirs: Vec<String> = Vec::new();
        dirs.push(repo.vcs_dir.clone());
        dirs.push(chars_to_string(&join_fs(&dir, &objects)));
        dirs.push(chars_to_string(&join_fs(&join_fs(&dir, &refs), &heads)));
        let mut files: Vec<FileWrite> = Vec::new();
        files.push(
            FileWrite {
                path: chars_to_string(&join_fs(&dir, &head)),
                content: chars_to_string(&pointer),
            },
        );
        files.push(
            FileWrite {
                path: chars_to_string(&join_fs(&dir, &index)),
                content: chars_to_string(&nothing),
            },
        );
        Ok(InitPlan { repo, dirs, files })
    }

    /// The file of the object with the digest `hash`. The first two bytes of the
    /// digest must be whole characters, as they are in every digest.
    pub fn object_path(&self, hash: &str) -> (r: String)
        requires
            chars_in_bytes(hash@, 2) is Some,
        ensures
            r@ == object_file(self.vcs_dir@, hash@),
    {
        let h = string_chars(hash);
        let k: usize = match count_chars_in_bytes(&h, 2) {
            Some(k) => k,
            None => 0,
        };
        let word = vec!['o', 'b', 'j', 'e', 'c', 't', 's'];
        assert(word@ =~= objects_name());
        let objects = join_fs(&string_chars(self.vcs_dir.as_str()), &word);
        let shard = sub_chars(&h, 0, k);
        let rest = sub_chars(&h, k, h.len());
        assert(shard@ =~= h@.take(k as int));
        assert(rest@ =~= h@.skip(k as int));
        chars_to_string(&join_fs(&join_fs(&objects, &shard), &rest))
    }

    /// Prepares `obj` for the store: its canonical bytes, their digest, and the
    /// file to write them to unless it exists. It fails only where the object
    /// cannot be encoded.
    pub fn write_object(&self, obj: &GitObject) -> (r: Result<StoredAt, ObjectError>)
        ensures
            r matches Ok(stored) ==> serialized(obj@) == Ok::<Seq<u8>, ObjectError>(
                stored.object.data@,
            ) && stored.object.hash@ == object_digest(stored.object.data@) && stored.path@
                == object_file(self.vcs_dir@, stored.object.hash@),
            r matches Err(e) ==> serialized(obj@) == Err::<Seq<u8>, ObjectError>(e),
    {
        let data = match obj.serialize() {
            Ok(data) => data,
            Err(e) => {
                return Err(e);
            },
        };
        let hash = hash_object(data.as_slice());
        proof {
            assert(crate::hash::is_lower_hex_digit(hash@[0]));
            assert(crate::hash::is_lower_hex_digit(hash@[1]));
            lemma_chars_in_bytes_ascii(hash@, 2);
        }
        let path = self.object_path(hash.as_str());
        Ok(StoredAt { path, object: StoredObject { hash, data } })
    }

    /// Decodes the bytes found in the file of an object; `None` stands for a
    /// file that could not be read.
    pub fn read_object(data: Option<&[u8]>) -> (r: Result<GitObject, RepoError>)
        ensures
            data is None ==> r == Err::<GitObject, RepoError>(RepoError::ObjectNotFound),
            data matches Some(bytes) ==> match r {
                Ok(o) => deserialized(bytes@) == Ok::<ObjectView, ObjectError>(o@),
                Err(RepoError::Object(e)) => deserialized(bytes@) == Err::<
                    ObjectView,
                    ObjectError,
                >(e),
                Err(_) => false,
            },
    {
        match data {
            None => Err(RepoError::ObjectNotFound),
            Some(bytes) => match GitObject::deserialize(bytes) {
                Ok(o) => Ok(o),
                Err(e) => Err(RepoError::Object(e)),
            },
        }
    }

    /// The index as it is used, from the entries found in its file; `None`
    /// stands for a missing or unreadable file and gives an empty index. An
    /// entry without a mode, as older files have them, gets the mode of a
    /// regular file.
    pub fn get_index(loaded: Option<Vec<IndexEntry>>) -> (r: Vec<IndexEntry>)
        ensures
            loaded is None ==> r@.len() == 0,
            loaded matches Some(entries) ==> r@.len() == entries@.len() && forall|i: int|
                0 <= i < r@.len() ==> (#[trigger] r@[i])@ == with_mode(entries@[i]@),
    {
        let entries = match loaded {
            Some(entries) => entries,
            None => {
                return Vec::new();
            },
        };
        let mut r: Vec<IndexEntry> = Vec::new();
        let mut i: usize = 0;
        while i < entries.len()
            invariant
                i <= entries.len(),
                r@.len() == i,
                forall|j: int| 0 <= j < i ==> (#[trigger] r@[j])@ == with_mode(entries@[j]@),
            decreases entries.len() - i,
        {
            let e = &entries[i];
            let mode = string_chars(e.mode.as_str());
            let mode = if mode.len() == 0 {
                let regular = vec!['1', '0', '0', '6', '4', '4'];
                assert(regular@ =~= seq!['1', '0', '0', '6', '4', '4']);
                regular
            } else {
                mode
            };
            r.push(
                IndexEntry {
                    path: e.path.clone(),
                    hash: e.hash.clone(),
                    size: e.size,
                    mode: chars_to_string(&mode),
                },
            );
            i += 1;
        }
        r
    }

    /// The file that a symbolic `HEAD` names, if `head` is symbolic.
    pub fn head_ref_file(&self, head: &str) -> (r: Option<String>)
        ensures
            match parsed_head(head@) {
                HeadRefView::Symbolic(name) => r matches Some(p) && p@ == fs_join(
                    self.vcs_dir@,
                    name,
                ),
                HeadRefView::Direct(_) => r is None,
            },
    {
        match parse_head(head) {
            HeadRef::Symbolic(name) => Some(
                chars_to_string(
                    &join_fs(&string_chars(self.vcs_dir.as_str()), &string_chars(name.as_str())),
                ),
            ),
            HeadRef::Direct(_) => None,
        }
    }

    /// The digest of the last commit. `head` is the content of the file `HEAD`,
    /// `reference` that of the file it names; `None` stands for a file that is
    /// not there.
    pub fn get_head(head: Option<&str>, reference: Option<&str>) -> (r: Option<String>)
        ensures
            match r {
                Some(hash) => head_commit(opt_text(head), opt_text(reference)) == Some(hash@),
                None => head_commit(opt_text(head), opt_text(reference)) is None,
            },
    {
        match head {
            None => None,
            Some(content) => match parse_head(content) {
                HeadRef::Direct(hash) => Some(hash),
                HeadRef::Symbolic(_) => match reference {
                    Some(text) => Some(chars_to_string(&trim(&string_chars(text)))),
                    None => None,
                },
            },
        }
    }

    /// What to write so that `commit_hash` becomes the last commit: the digest
    /// and a line feed, into the file that `HEAD` names or, if `HEAD` is direct,
    /// into `HEAD` itself. `head` is the content of `HEAD`.
    pub fn set_head(&self, head: &str, commit_hash: &str) -> (r: FileWrite)
        ensures
            r.path@ == head_file(self.vcs_dir@, head@),
            r.content@ == commit_hash@.push('\n'),
    {
        let dir = string_chars(self.vcs_dir.as_str());
        let path = match parse_head(head) {
            HeadRef::Symbolic(name) => join_fs(&dir, &string_chars(name.as_str())),
            HeadRef::Direct(_) => {
                let word = vec!['H', 'E', 'A', 'D'];
                assert(word@ =~= head_name());
                join_fs(&dir, &word)
            },
        };
        let mut content = string_chars(commit_hash);
        content.push('\n');
        FileWrite { path: chars_to_string(&path), content: chars_to_string(&content) }
    }
}

/// Plans the start of a repository in the directory `path`, as
/// `Repository::create` does; `exists` says whether a repository is there
/// already.
pub fn init(path: String, exists: bool) -> (r: Result<InitPlan, RepoError>)
    ensures
        r is Ok <==> !exists,
        r matches Err(e) ==> e == RepoError::RepositoryExists,
        r matches Ok(plan) ==> is_init_plan(plan, path@),
{
    Repository::create(path, exists)
}

/// What an optional string slice holds.
pub open spec fn opt_text(o: Option<&str>) -> Option<Seq<char>> {
    match o {
        Some(s) => Some(s@),
        None => None,
    }
}

/// The files of the object store, each with its bytes, after `data` has been
/// stored in the file `path`: a file that is there is left as it is, for what it
/// holds was stored under the same digest.
pub open spec fn files_after_write(
    files: Map<Seq<char>, Seq<u8>>,
    path: Seq<char>,
    data: Seq<u8>,
) -> Map<Seq<char>, Seq<u8>> {
    if files.contains_key(path) {
        files
    } else {
        files.insert(path, data)
    }
}

impl StoredAt {
    /// Whether the bytes are to be written; `exists` says whether the file is
    /// there already. What is stored is never written again.
    pub fn needs_writing(&self, exists: bool) -> (r: bool)
        ensures
            r == !exists,
            forall|files: Map<Seq<char>, Seq<u8>>|
                files.contains_key(self.path@) == exists ==> #[trigger] files_after_write(
                    files,
                    self.path@,
                    self.object.data@,
                ) == (if r {
                    files.insert(self.path@, self.object.data@)
                } else {
                    files
                }),
    {
        !exists
    }
}

/// Two objects with the same canonical bytes are stored under the same digest
/// and in the same file, and storing the second changes nothing: after both
/// the store holds one file more than before, or as many if the file was there.
pub proof fn law_content_addressed(
    files: Map<Seq<char>, Seq<u8>>,
    vcs_dir: Seq<char>,
    a: ObjectView,
    b: ObjectView,
)
    requires
        serialized(a) is Ok,
        serialized(a) == serialized(b),
    ensures
        ({
            let first = serialized(a)->Ok_0;
            let second = serialized(b)->Ok_0;
            let path = object_file(vcs_dir, object_digest(first));
            let once = files_after_write(files, path, first);
            &&& object_digest(first) == object_digest(second)
            &&& object_file(vcs_dir, object_digest(second)) == path
            &&& files_after_write(once, path, second) == once
            &&& once.dom() == files.dom().insert(path)
            &&& once.contains_key(path)
        }),
{
    let first = serialized(a)->Ok_0;
    let path = object_file(vcs_dir, object_digest(first));
    let once = files_after_write(files, path, first);
    assert(once.dom() =~= files.dom().insert(path));
}

} // verus!
